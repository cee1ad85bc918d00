//! The bundle container: a binary module whose sections may carry auxiliary
//! payloads besides the executable one. The scanner walks the section list
//! non-destructively — the workload bytes handed to the engine are the
//! original input — and only discovers the byte range of the auxiliary
//! resource archive: the custom (id 0) section named `bundle`.
//!
//! Layout scanned here: an 8-byte preamble (magic `\0asm`, version 1), then
//! sections of the form `id: u8, size: leb128, payload: size bytes`; a
//! custom section's payload begins with its name (leb128 length + bytes).

use vstd::prelude::*;

use crate::error::Error;

verus! {

broadcast use vstd::seq::group_seq_axioms;

/// 128^k, the weight of the k-th group of a little-endian leb128 encoding.
pub open spec fn pow128(k: nat) -> nat
    decreases k,
{
    if k == 0 {
        1
    } else {
        128 * pow128((k - 1) as nat)
    }
}

/// The value of a leb128 encoding, each byte contributing its low 7 bits.
pub open spec fn leb_value(s: Seq<u8>) -> nat
    decreases s.len(),
{
    if s.len() == 0 {
        0
    } else {
        (s[0] % 128) as nat + 128 * leb_value(s.drop_first())
    }
}

/// Where the leb128 number starting at `i` ends (one past its last byte),
/// with at most `allow` bytes left to read.
pub open spec fn leb_end_k(b: Seq<u8>, i: int, allow: nat) -> Option<int>
    decreases allow,
{
    if i < 0 || i >= b.len() || allow == 0 {
        Option::None
    } else if b[i] < 128 {
        Option::Some(i + 1)
    } else {
        leb_end_k(b, i + 1, (allow - 1) as nat)
    }
}

/// Where the leb128 number starting at `i` ends; `None` if truncated or
/// longer than the 5 bytes a 32-bit size may occupy.
pub open spec fn leb_end(b: Seq<u8>, i: int) -> Option<int> {
    leb_end_k(b, i, 5)
}

/// The value of the leb128 number starting at `i`.
pub open spec fn leb_val(b: Seq<u8>, i: int) -> nat {
    leb_value(b.subrange(i, leb_end(b, i)->0))
}

pub proof fn lemma_leb_value_push(s: Seq<u8>, x: u8)
    ensures
        leb_value(s.push(x)) == leb_value(s) + (x % 128) * pow128(s.len()),
    decreases s.len(),
{
    if s.len() == 0 {
        assert(s.push(x)[0] == x);
        assert(s.push(x).drop_first() =~= Seq::<u8>::empty());
        assert(pow128(0) == 1);
        reveal_with_fuel(leb_value, 2);
        assert(leb_value(Seq::<u8>::empty()) == 0);
        assert(leb_value(s.push(x)) == (x % 128) as nat);
    } else {
        assert(s.push(x).drop_first() =~= s.drop_first().push(x));
        lemma_leb_value_push(s.drop_first(), x);
        assert(s.push(x)[0] == s[0]);
        assert((x % 128) * pow128(s.len()) == 128 * ((x % 128) * pow128((s.len() - 1) as nat)))
            by (nonlinear_arith)
            requires
                pow128(s.len()) == 128 * pow128((s.len() - 1) as nat),
        ;
    }
}

pub proof fn lemma_pow128_mono(a: nat, b: nat)
    requires
        a <= b,
    ensures
        pow128(a) <= pow128(b),
    decreases b,
{
    if a < b {
        lemma_pow128_mono(a, (b - 1) as nat);
        assert(pow128(b) == 128 * pow128((b - 1) as nat));
    }
}

/// Reads the leb128 number starting at `pos`, returning its value and the
/// index one past its last byte.
pub fn parse_leb(input: &Vec<u8>, pos: usize) -> (r: Option<(u64, usize)>)
    requires
        pos <= input@.len(),
    ensures
        match r {
            Option::Some(v) => leb_end(input@, pos as int) == Option::Some(v.1 as int) && pos < v.1
                <= input@.len() && v.0 == leb_val(input@, pos as int),
            Option::None => leb_end(input@, pos as int) is None,
        },
{
    let len = input.len();
    let mut val: u64 = 0;
    let mut mult: u64 = 1;
    let mut k: usize = 0;
    proof {
        assert(input@.subrange(pos as int, pos as int) =~= Seq::<u8>::empty());
        assert(pow128(0) == 1);
        lemma_pow128_mono(0, 5);
    }
    while k < 5
        invariant
            pos <= input@.len(),
            len == input@.len(),
            k <= 5,
            pos + k <= len,
            val == leb_value(input@.subrange(pos as int, pos + k)),
            mult == pow128(k as nat),
            val < mult,
            mult <= pow128(5),
            leb_end_k(input@, pos as int, 5) == leb_end_k(input@, pos + k, (5 - k) as nat),
            forall|a: int| pos <= a < pos + k ==> input@[a] >= 128,
        decreases 5 - k,
    {
        if pos + k >= len {
            return Option::None;
        }
        let byte = input[pos + k];
        let ghost consumed = input@.subrange(pos as int, pos + k);
        proof {
            lemma_leb_value_push(consumed, byte);
            assert(consumed.push(byte) =~= input@.subrange(pos as int, pos + k + 1));
            assert(pow128((k + 1) as nat) == 128 * pow128(k as nat));
            lemma_pow128_mono((k + 1) as nat, 5);
            assert(val + (byte % 128) * mult < 128 * mult) by (nonlinear_arith)
                requires
                    val < mult,
                    byte % 128 < 128,
            ;
            assert(pow128(5) == 34359738368) by {
                reveal_with_fuel(pow128, 6);
            }
        }
        val = val + ((byte % 128) as u64) * mult;
        if byte < 128 {
            proof {
                assert(leb_end_k(input@, pos + k, (5 - k) as nat) == Option::Some(pos + k + 1));
            }
            return Option::Some((val, pos + k + 1));
        }
        mult = mult * 128;
        k = k + 1;
    }
    Option::None
}

/// The section list from byte `i` on: triples of section id, payload start
/// and payload length. `None` when a section is truncated or its size field
/// is malformed.
pub open spec fn sections_from(b: Seq<u8>, i: int) -> Option<Seq<(u8, int, int)>>
    decreases b.len() - i,
{
    if i < 0 || i > b.len() {
        Option::None
    } else if i == b.len() {
        Option::Some(Seq::empty())
    } else {
        match leb_end(b, i + 1) {
            Option::None => Option::None,
            Option::Some(e) => {
                let size = leb_val(b, i + 1) as int;
                if i + 1 < e && e + size <= b.len() {
                    match sections_from(b, e + size) {
                        Option::None => Option::None,
                        Option::Some(rest) => Option::Some(
                            seq![(b[i], e, size)].add(rest),
                        ),
                    }
                } else {
                    Option::None
                }
            },
        }
    }
}

/// The container preamble: magic bytes and version 1.
pub open spec fn preamble() -> Seq<u8> {
    seq![0x00u8, 0x61u8, 0x73u8, 0x6du8, 0x01u8, 0x00u8, 0x00u8, 0x00u8]
}

/// The sections of a well-formed container, `None` when the structure is
/// malformed.
pub open spec fn bundle_sections(b: Seq<u8>) -> Option<Seq<(u8, int, int)>> {
    if b.len() >= 8 && b.subrange(0, 8) == preamble() {
        sections_from(b, 8)
    } else {
        Option::None
    }
}

/// The name of the custom section that carries the resource archive.
pub open spec fn archive_name() -> Seq<u8> {
    seq![98u8, 117u8, 110u8, 100u8, 108u8, 101u8]
}

/// The content range of a custom section's payload after its name, if the
/// section's name is well formed and equals the archive name.
pub open spec fn archive_content(b: Seq<u8>, off: int, len: int) -> Option<(int, int)> {
    match leb_end(b, off) {
        Option::None => Option::None,
        Option::Some(e) => {
            let nl = leb_val(b, off) as int;
            if e + nl <= off + len && off < e && e + nl <= b.len() && b.subrange(e, e + nl)
                == archive_name() {
                Option::Some((e + nl, off + len - (e + nl)))
            } else {
                Option::None
            }
        },
    }
}

/// The first archive section among `ss`, by payload range.
pub open spec fn first_archive(b: Seq<u8>, ss: Seq<(u8, int, int)>) -> Option<(int, int)>
    decreases ss.len(),
{
    if ss.len() == 0 {
        Option::None
    } else if ss[0].0 == 0u8 && archive_content(b, ss[0].1, ss[0].2) is Some {
        archive_content(b, ss[0].1, ss[0].2)
    } else {
        first_archive(b, ss.drop_first())
    }
}

/// The archive payload's byte range within a bundle: `None` when the
/// container is malformed, `Some(None)` when it is well formed but carries
/// no archive.
pub open spec fn spec_find_archive(b: Seq<u8>) -> Option<Option<(int, int)>> {
    match bundle_sections(b) {
        Option::None => Option::None,
        Option::Some(ss) => Option::Some(first_archive(b, ss)),
    }
}

/// Checks that the bytes at `at` equal `expect`.
fn bytes_match(input: &Vec<u8>, at: usize, expect: &Vec<u8>) -> (r: bool)
    requires
        at + expect@.len() <= input@.len(),
    ensures
        r == (input@.subrange(at as int, at + expect@.len()) == expect@),
{
    let ilen = input.len();
    let elen = expect.len();
    let mut j: usize = 0;
    while j < elen
        invariant
            at + elen <= ilen,
            elen == expect@.len(),
            ilen == input@.len(),
            j <= elen,
            forall|a: int| 0 <= a < j ==> input@[at + a] == expect@[a],
        decreases elen - j,
    {
        if input[at + j] != expect[j] {
            proof {
                assert(input@.subrange(at as int, at + expect@.len())[j as int] != expect@[j as int]);
            }
            return false;
        }
        j = j + 1;
    }
    proof {
        assert(input@.subrange(at as int, at + expect@.len()) =~= expect@);
    }
    true
}

/// Scans the bundled input and locates the resource archive: `Ok(Some)` with
/// the archive's byte range, `Ok(None)` for a well-formed bundle without
/// one, and a malformed container structure as an instantiation failure.
pub fn find_archive_section(input: &Vec<u8>) -> (r: Result<Option<(usize, usize)>, Error>)
    ensures
        match r {
            Result::Ok(opt) => match opt {
                Option::Some(range) => spec_find_archive(input@) == Option::Some(
                    Option::Some((range.0 as int, range.1 as int)),
                ) && range.0 + range.1 <= input@.len(),
                Option::None => spec_find_archive(input@) == Option::Some(
                    Option::None::<(int, int)>,
                ),
            },
            Result::Err(e) => spec_find_archive(input@) is None && e is InstantiationFailed,
        },
{
    let len = input.len();
    let mut magic: Vec<u8> = Vec::new();
    magic.push(0x00u8);
    magic.push(0x61u8);
    magic.push(0x73u8);
    magic.push(0x6du8);
    magic.push(0x01u8);
    magic.push(0x00u8);
    magic.push(0x00u8);
    magic.push(0x00u8);
    proof {
        assert(magic@ =~= preamble());
    }
    if len < 8 {
        return Result::Err(Error::InstantiationFailed);
    }
    if !bytes_match(input, 0, &magic) {
        return Result::Err(Error::InstantiationFailed);
    }
    let mut name: Vec<u8> = Vec::new();
    name.push(98u8);
    name.push(117u8);
    name.push(110u8);
    name.push(100u8);
    name.push(108u8);
    name.push(101u8);
    proof {
        assert(name@ =~= archive_name());
    }
    let mut pos: usize = 8;
    let mut found: Option<(usize, usize)> = Option::None;
    let ghost mut prefix: Seq<(u8, int, int)> = Seq::empty();
    proof {
        match sections_from(input@, 8) {
            Option::Some(rest) => {
                assert(prefix.add(rest) =~= rest);
            },
            Option::None => {},
        }
    }
    while pos < len
        invariant
            8 <= pos <= len,
            len == input@.len(),
            name@ == archive_name(),
            input@.len() >= 8 && input@.subrange(0, 8) == preamble(),
            sections_from(input@, pos as int) is None ==> sections_from(input@, 8) is None,
            sections_from(input@, pos as int) matches Some(rest) ==> sections_from(input@, 8)
                == Option::Some(prefix.add(rest)),
            found is None ==> (sections_from(input@, pos as int) matches Some(rest)
                ==> first_archive(input@, prefix.add(rest)) == first_archive(input@, rest)),
            found matches Some(r) ==> r.0 + r.1 <= len && (sections_from(input@, pos as int)
                matches Some(rest) ==> first_archive(input@, prefix.add(rest)) == Option::Some(
                (r.0 as int, r.1 as int),
            )),
        decreases len - pos,
    {
        let id = input[pos];
        let (size64, e) = match parse_leb(input, pos + 1) {
            Option::Some(v) => v,
            Option::None => {
                return Result::Err(Error::InstantiationFailed);
            },
        };
        if size64 > (len - e) as u64 {
            return Result::Err(Error::InstantiationFailed);
        }
        let size = size64 as usize;
        let ghost sec = (input@[pos as int], e as int, size as int);
        proof {
            assert(size as int == leb_val(input@, pos + 1));
        }
        let mut matched: Option<(usize, usize)> = Option::None;
        if id == 0u8 {
            match parse_leb(input, e) {
                Option::Some((nl64, ne)) => {
                    if nl64 == name.len() as u64 && ne <= e + size && name.len() <= e + size - ne {
                        let nl = nl64 as usize;
                        if bytes_match(input, ne, &name) {
                            proof {
                                assert(archive_content(input@, e as int, size as int)
                                    == Option::Some((
                                    (ne + nl) as int,
                                    (e + size - (ne + nl)) as int,
                                )));
                            }
                            matched = Option::Some((ne + nl, e + size - (ne + nl)));
                        } else {
                            proof {
                                assert(input@.subrange(ne as int, ne + nl) != archive_name());
                                assert(archive_content(input@, e as int, size as int) is None);
                            }
                        }
                    } else {
                        proof {
                            if archive_content(input@, e as int, size as int) is Some {
                                assert(leb_val(input@, e as int) == archive_name().len());
                                assert(false);
                            }
                        }
                    }
                },
                Option::None => {
                    proof {
                        assert(archive_content(input@, e as int, size as int) is None);
                    }
                },
            }
        }
        let ghost sec_matches = sec.0 == 0u8 && archive_content(input@, sec.1, sec.2) is Some;
        proof {
            match matched {
                Option::Some(m) => {
                    assert(sec_matches);
                    assert(archive_content(input@, sec.1, sec.2) == Option::Some(
                        (m.0 as int, m.1 as int),
                    ));
                },
                Option::None => {
                    assert(!sec_matches);
                },
            }
            match sections_from(input@, pos as int) {
                Option::Some(rest) => {
                    assert(rest == seq![sec].add(sections_from(input@, e + size)->0));
                },
                Option::None => {},
            }
        }
        let ghost old_prefix = prefix;
        let ghost old_found = found;
        let ghost oldpos = pos;
        if found.is_none() {
            found = matched;
        }
        proof {
            prefix = prefix.push(sec);
        }
        pos = e + size;
        proof {
            match sections_from(input@, pos as int) {
                Option::Some(rest2) => {
                    let rest = seq![sec].add(rest2);
                    assert(sections_from(input@, oldpos as int) == Option::Some(rest));
                    assert(old_prefix.add(rest) =~= prefix.add(rest2));
                    assert(rest.drop_first() =~= rest2);
                    assert(rest[0] == sec);
                    if sec_matches {
                        assert(first_archive(input@, rest) == archive_content(
                            input@,
                            sec.1,
                            sec.2,
                        ));
                    } else {
                        assert(first_archive(input@, rest) == first_archive(input@, rest2));
                    }
                },
                Option::None => {
                    assert(sections_from(input@, oldpos as int) is None);
                },
            }
        }
    }
    proof {
        assert(sections_from(input@, pos as int) == Option::Some(Seq::<(u8, int, int)>::empty()));
        assert(prefix.add(Seq::<(u8, int, int)>::empty()) =~= prefix);
        if found is None {
            assert(first_archive(input@, Seq::<(u8, int, int)>::empty()) is None);
        }
    }
    Result::Ok(found)
}

} // verus!

//! The deployment configuration: the declarative stdin/stdout/stderr policy
//! resolved from the optional `config.yaml` resource at the root of the
//! virtual filesystem, falling back to all streams discarded. The document
//! is a mapping of mappings of optional scalars; the recognized fields are
//! `stdio.stdin` (`bundle:<path>`, `file:<path>`, `inherit` or null) and
//! `stdio.stdout` / `stdio.stderr` (`file:<path>`, `inherit` or null).

use vstd::prelude::*;
use vstd::string::StrSliceExecFns;

use crate::error::Error;
use crate::virtfs::{file_content, seg_views, spec_lookup, Node, NodeView};

verus! {

broadcast use vstd::seq::group_seq_axioms;

/// The stdin policy.
pub enum ReadOnly {
    /// Read from the virtual filesystem at this path.
    Bundle(String),
    /// Read from this host-filesystem path.
    File(String),
    /// Inherit the host's real stdin.
    Inherit,
    /// Discard: the workload sees end-of-stream immediately.
    Null,
}

/// The stdout / stderr policy.
pub enum WriteOnly {
    /// Write to this host-filesystem path, created or truncated.
    File(String),
    /// Inherit the host's real stream.
    Inherit,
    /// Discard all writes.
    Null,
}

/// The model of a stdin policy.
pub enum ReadOnlyV {
    Bundle(Seq<char>),
    File(Seq<char>),
    Inherit,
    Null,
}

/// The model of an output policy.
pub enum WriteOnlyV {
    File(Seq<char>),
    Inherit,
    Null,
}

impl ReadOnly {
    pub open spec fn view(self) -> ReadOnlyV {
        match self {
            ReadOnly::Bundle(p) => ReadOnlyV::Bundle(p@),
            ReadOnly::File(p) => ReadOnlyV::File(p@),
            ReadOnly::Inherit => ReadOnlyV::Inherit,
            ReadOnly::Null => ReadOnlyV::Null,
        }
    }
}

impl WriteOnly {
    pub open spec fn view(self) -> WriteOnlyV {
        match self {
            WriteOnly::File(p) => WriteOnlyV::File(p@),
            WriteOnly::Inherit => WriteOnlyV::Inherit,
            WriteOnly::Null => WriteOnlyV::Null,
        }
    }
}

/// The stdio policy of one workload execution.
pub struct Stdio {
    pub stdin: ReadOnly,
    pub stdout: WriteOnly,
    pub stderr: WriteOnly,
}

/// The deployment configuration.
pub struct Config {
    pub stdio: Stdio,
}

/// The model of a deployment configuration.
pub struct ConfigV {
    pub stdin: ReadOnlyV,
    pub stdout: WriteOnlyV,
    pub stderr: WriteOnlyV,
}

impl Config {
    pub open spec fn cview(self) -> ConfigV {
        ConfigV {
            stdin: self.stdio.stdin.view(),
            stdout: self.stdio.stdout.view(),
            stderr: self.stdio.stderr.view(),
        }
    }
}

/// The fallback: all streams discarded.
pub open spec fn default_config() -> ConfigV {
    ConfigV { stdin: ReadOnlyV::Null, stdout: WriteOnlyV::Null, stderr: WriteOnlyV::Null }
}

pub open spec fn is_prefix(pre: Seq<char>, s: Seq<char>) -> bool {
    s.len() >= pre.len() && s.subrange(0, pre.len() as int) == pre
}

/// The stdin policy a configuration scalar denotes: an absent or null key
/// discards the stream; unrecognized scalars are a deserialization error.
pub open spec fn parse_read_val(v: Option<Option<Seq<char>>>) -> Option<ReadOnlyV> {
    match v {
        Option::None => Option::Some(ReadOnlyV::Null),
        Option::Some(Option::None) => Option::Some(ReadOnlyV::Null),
        Option::Some(Option::Some(s)) => if s == "inherit"@ {
            Option::Some(ReadOnlyV::Inherit)
        } else if is_prefix("bundle:"@, s) {
            Option::Some(ReadOnlyV::Bundle(s.skip("bundle:"@.len() as int)))
        } else if is_prefix("file:"@, s) {
            Option::Some(ReadOnlyV::File(s.skip("file:"@.len() as int)))
        } else {
            Option::None
        },
    }
}

/// The output policy a configuration scalar denotes.
pub open spec fn parse_write_val(v: Option<Option<Seq<char>>>) -> Option<WriteOnlyV> {
    match v {
        Option::None => Option::Some(WriteOnlyV::Null),
        Option::Some(Option::None) => Option::Some(WriteOnlyV::Null),
        Option::Some(Option::Some(s)) => if s == "inherit"@ {
            Option::Some(WriteOnlyV::Inherit)
        } else if is_prefix("file:"@, s) {
            Option::Some(WriteOnlyV::File(s.skip("file:"@.len() as int)))
        } else {
            Option::None
        },
    }
}

/// The first value a key maps to in an association list.
pub open spec fn doc_get<T>(doc: Seq<(Seq<char>, T)>, key: Seq<char>) -> Option<T>
    decreases doc.len(),
{
    if doc.len() == 0 {
        Option::None
    } else if doc[0].0 == key {
        Option::Some(doc[0].1)
    } else {
        doc_get(doc.drop_first(), key)
    }
}

/// The configuration a parsed document denotes: the `stdio` section's
/// recognized fields, each falling back to the discarded stream.
pub open spec fn spec_config_of_doc(
    doc: Seq<(Seq<char>, Seq<(Seq<char>, Option<Seq<char>>)>)>,
) -> Option<ConfigV> {
    match doc_get(doc, "stdio"@) {
        Option::None => Option::Some(default_config()),
        Option::Some(fields) => {
            let sin = parse_read_val(doc_get(fields, "stdin"@));
            let sout = parse_write_val(doc_get(fields, "stdout"@));
            let serr = parse_write_val(doc_get(fields, "stderr"@));
            if sin is Some && sout is Some && serr is Some {
                Option::Some(ConfigV { stdin: sin->0, stdout: sout->0, stderr: serr->0 })
            } else {
                Option::None
            }
        },
    }
}

pub open spec fn fields_view(v: Seq<(String, Option<String>)>) -> Seq<(Seq<char>, Option<Seq<char>>)> {
    v.map_values(
        |q: (String, Option<String>)|
            (
                q.0@,
                match q.1 {
                    Option::Some(s) => Option::Some(s@),
                    Option::None => Option::None,
                },
            ),
    )
}

pub open spec fn doc_view(v: Seq<(String, Vec<(String, Option<String>)>)>) -> Seq<
    (Seq<char>, Seq<(Seq<char>, Option<Seq<char>>)>),
> {
    v.map_values(|p: (String, Vec<(String, Option<String>)>)| (p.0@, fields_view(p.1@)))
}

/// The document that deserializing these bytes as a mapping of mappings of
/// optional scalars yields, keys in sorted order: a function of the bytes
/// alone; `None` when they do not deserialize to that shape.
pub uninterp spec fn stdio_doc(b: Seq<u8>) -> Option<
    Seq<(Seq<char>, Seq<(Seq<char>, Option<Seq<char>>)>)>,
>;

/// Relies on serde_yaml::from_slice: deserializing a YAML document into a
/// BTreeMap of BTreeMaps of optional strings is a function of the bytes
/// alone (iteration order of a BTreeMap is its key order), and bytes that
/// do not deserialize to that shape report an error.
#[verifier::external_body]
fn parse_yaml_doc(bytes: &Vec<u8>) -> (r: Result<
    Vec<(String, Vec<(String, Option<String>)>)>,
    Error,
>)
    ensures
        match r {
            Result::Ok(v) => stdio_doc(bytes@) == Option::Some(doc_view(v@)),
            Result::Err(e) => stdio_doc(bytes@) is None && e is InstantiationFailed,
        },
{
    let m: std::collections::BTreeMap<String, std::collections::BTreeMap<String, Option<String>>> = match serde_yaml::from_slice(bytes.as_slice()) {
        Ok(m) => m,
        Err(_) => return Err(Error::InstantiationFailed),
    };
    Ok(m.into_iter().map(|(k, v)| (k, v.into_iter().collect())).collect())
}

/// Whether `s` begins with `pre`, by characters.
fn has_prefix(s: &str, pre: &str) -> (r: bool)
    ensures
        r == is_prefix(pre@, s@),
{
    let np = pre.unicode_len();
    let ns = s.unicode_len();
    if ns < np {
        return false;
    }
    let mut i: usize = 0;
    while i < np
        invariant
            i <= np,
            np == pre@.len(),
            ns == s@.len(),
            np <= ns,
            forall|a: int| 0 <= a < i ==> s@[a] == pre@[a],
        decreases np - i,
    {
        if s.get_char(i) != pre.get_char(i) {
            proof {
                assert(s@.subrange(0, np as int)[i as int] != pre@[i as int]);
            }
            return false;
        }
        i = i + 1;
    }
    proof {
        assert(s@.subrange(0, np as int) =~= pre@);
    }
    true
}

/// Interprets a stdin scalar.
fn read_policy_of(v: Option<&Option<String>>) -> (r: Result<ReadOnly, Error>)
    ensures
        match r {
            Result::Ok(p) => parse_read_val(opt2_view(v)) == Option::Some(p.view()),
            Result::Err(e) => parse_read_val(opt2_view(v)) is None && e is InstantiationFailed,
        },
{
    match v {
        Option::None => Result::Ok(ReadOnly::Null),
        Option::Some(inner) => match inner {
            Option::None => Result::Ok(ReadOnly::Null),
            Option::Some(s) => {
                let inherit = "inherit".to_owned();
                if *s == inherit {
                    Result::Ok(ReadOnly::Inherit)
                } else if has_prefix(s.as_str(), "bundle:") {
                    let rest = s.as_str().substring_char(
                        "bundle:".unicode_len(),
                        s.as_str().unicode_len(),
                    ).to_owned();
                    proof {
                        assert(rest@ =~= s@.skip("bundle:"@.len() as int));
                    }
                    Result::Ok(ReadOnly::Bundle(rest))
                } else if has_prefix(s.as_str(), "file:") {
                    let rest = s.as_str().substring_char(
                        "file:".unicode_len(),
                        s.as_str().unicode_len(),
                    ).to_owned();
                    proof {
                        assert(rest@ =~= s@.skip("file:"@.len() as int));
                    }
                    Result::Ok(ReadOnly::File(rest))
                } else {
                    Result::Err(Error::InstantiationFailed)
                }
            },
        },
    }
}

pub open spec fn opt2_view(v: Option<&Option<String>>) -> Option<Option<Seq<char>>> {
    match v {
        Option::None => Option::None,
        Option::Some(inner) => Option::Some(
            match inner {
                Option::Some(s) => Option::Some(s@),
                Option::None => Option::None,
            },
        ),
    }
}

/// Interprets a stdout / stderr scalar.
fn write_policy_of(v: Option<&Option<String>>) -> (r: Result<WriteOnly, Error>)
    ensures
        match r {
            Result::Ok(p) => parse_write_val(opt2_view(v)) == Option::Some(p.view()),
            Result::Err(e) => parse_write_val(opt2_view(v)) is None && e is InstantiationFailed,
        },
{
    match v {
        Option::None => Result::Ok(WriteOnly::Null),
        Option::Some(inner) => match inner {
            Option::None => Result::Ok(WriteOnly::Null),
            Option::Some(s) => {
                let inherit = "inherit".to_owned();
                if *s == inherit {
                    Result::Ok(WriteOnly::Inherit)
                } else if has_prefix(s.as_str(), "file:") {
                    let rest = s.as_str().substring_char(
                        "file:".unicode_len(),
                        s.as_str().unicode_len(),
                    ).to_owned();
                    proof {
                        assert(rest@ =~= s@.skip("file:"@.len() as int));
                    }
                    Result::Ok(WriteOnly::File(rest))
                } else {
                    Result::Err(Error::InstantiationFailed)
                }
            },
        },
    }
}

/// Finds the section a key names.
fn section_find<'a>(
    doc: &'a Vec<(String, Vec<(String, Option<String>)>)>,
    key: &String,
) -> (r: Option<&'a Vec<(String, Option<String>)>>)
    ensures
        match r {
            Option::Some(v) => doc_get(doc_view(doc@), key@) == Option::Some(fields_view(v@)),
            Option::None => doc_get(doc_view(doc@), key@) is None,
        },
{
    let mut j: usize = 0;
    proof {
        assert(doc_view(doc@).skip(0) =~= doc_view(doc@));
    }
    while j < doc.len()
        invariant
            j <= doc@.len(),
            doc_get(doc_view(doc@), key@) == doc_get(doc_view(doc@).skip(j as int), key@),
        decreases doc@.len() - j,
    {
        proof {
            assert(doc_view(doc@).skip(j as int)[0] == (doc@[j as int].0@, fields_view(
                doc@[j as int].1@,
            )));
            assert(doc_view(doc@).skip(j as int).drop_first() =~= doc_view(doc@).skip(j + 1));
        }
        if doc[j].0 == *key {
            return Option::Some(&doc[j].1);
        }
        j = j + 1;
    }
    proof {
        assert(doc_view(doc@).skip(doc@.len() as int) =~= Seq::<
            (Seq<char>, Seq<(Seq<char>, Option<Seq<char>>)>),
        >::empty());
    }
    Option::None
}

/// Finds the scalar a key names within a section.
fn field_find<'a>(fields: &'a Vec<(String, Option<String>)>, key: &String) -> (r: Option<
    &'a Option<String>,
>)
    ensures
        opt2_view(r) == match doc_get(fields_view(fields@), key@) {
            Option::Some(v) => Option::Some(v),
            Option::None => Option::None,
        },
{
    let mut j: usize = 0;
    proof {
        assert(fields_view(fields@).skip(0) =~= fields_view(fields@));
    }
    while j < fields.len()
        invariant
            j <= fields@.len(),
            doc_get(fields_view(fields@), key@) == doc_get(
                fields_view(fields@).skip(j as int),
                key@,
            ),
        decreases fields@.len() - j,
    {
        proof {
            assert(fields_view(fields@).skip(j as int)[0] == (fields@[j as int].0@, match fields@[j as int].1 {
                Option::Some(s) => Option::Some(s@),
                Option::None => Option::None,
            }));
            assert(fields_view(fields@).skip(j as int).drop_first() =~= fields_view(fields@).skip(
                j + 1,
            ));
        }
        if fields[j].0 == *key {
            return Option::Some(&fields[j].1);
        }
        j = j + 1;
    }
    proof {
        assert(fields_view(fields@).skip(fields@.len() as int) =~= Seq::<
            (Seq<char>, Option<Seq<char>>),
        >::empty());
    }
    Option::None
}

/// Interprets a parsed document as a deployment configuration.
fn config_of_doc(doc: &Vec<(String, Vec<(String, Option<String>)>)>) -> (r: Result<Config, Error>)
    ensures
        match r {
            Result::Ok(c) => spec_config_of_doc(doc_view(doc@)) == Option::Some(c.cview()),
            Result::Err(e) => spec_config_of_doc(doc_view(doc@)) is None
                && e is InstantiationFailed,
        },
{
    let stdio_key = "stdio".to_owned();
    match section_find(doc, &stdio_key) {
        Option::None => Result::Ok(
            Config {
                stdio: Stdio {
                    stdin: ReadOnly::Null,
                    stdout: WriteOnly::Null,
                    stderr: WriteOnly::Null,
                },
            },
        ),
        Option::Some(fields) => {
            let sin = match read_policy_of(field_find(fields, &"stdin".to_owned())) {
                Result::Ok(p) => p,
                Result::Err(e) => {
                    return Result::Err(e);
                },
            };
            let sout = match write_policy_of(field_find(fields, &"stdout".to_owned())) {
                Result::Ok(p) => p,
                Result::Err(e) => {
                    return Result::Err(e);
                },
            };
            let serr = match write_policy_of(field_find(fields, &"stderr".to_owned())) {
                Result::Ok(p) => p,
                Result::Err(e) => {
                    return Result::Err(e);
                },
            };
            Result::Ok(Config { stdio: Stdio { stdin: sin, stdout: sout, stderr: serr } })
        },
    }
}

/// The path of the configuration resource within the virtual filesystem.
pub open spec fn config_res_path() -> Seq<Seq<char>> {
    seq!["config.yaml"@]
}

/// The configuration a tree denotes: the fallback when no configuration
/// resource is present, and `None` — an instantiation failure — when the
/// resource is a directory or does not deserialize.
pub open spec fn spec_resolve_config(t: NodeView) -> Option<ConfigV> {
    match spec_lookup(t, config_res_path()) {
        Option::None => Option::Some(default_config()),
        Option::Some(node) => match node {
            NodeView::Directory(_) => Option::None,
            NodeView::File { .. } => match stdio_doc(file_content(node)) {
                Option::None => Option::None,
                Option::Some(doc) => spec_config_of_doc(doc),
            },
        },
    }
}

/// Resolves the deployment configuration from the tree's optional
/// configuration resource, reading the whole resource and deserializing it;
/// an absent resource yields the all-discarded default.
pub fn resolve_config(root: &Node) -> (r: Result<Config, Error>)
    requires
        root.wf(),
    ensures
        match r {
            Result::Ok(c) => spec_resolve_config(root.nview()) == Option::Some(c.cview()),
            Result::Err(e) => spec_resolve_config(root.nview()) is None
                && e is InstantiationFailed,
        },
{
    let mut segs: Vec<String> = Vec::new();
    segs.push("config.yaml".to_owned());
    proof {
        assert(seg_views(segs@) =~= config_res_path());
        assert(seg_views(segs@).skip(0) =~= seg_views(segs@));
    }
    match root.lookup_segs(&segs, 0) {
        Option::None => Result::Ok(
            Config {
                stdio: Stdio {
                    stdin: ReadOnly::Null,
                    stdout: WriteOnly::Null,
                    stderr: WriteOnly::Null,
                },
            },
        ),
        Option::Some(node) => match node {
            Node::Directory(_) => Result::Err(Error::InstantiationFailed),
            Node::File(_) => {
                let bytes = node.read_all();
                match parse_yaml_doc(&bytes) {
                    Result::Ok(doc) => config_of_doc(&doc),
                    Result::Err(e) => Result::Err(e),
                }
            },
        },
    }
}

} // verus!

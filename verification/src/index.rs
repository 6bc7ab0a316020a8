use vstd::prelude::*;
use vstd::string::StringExecFns;
use vstd::utf8::decode_utf8;
use vstd::utf8::valid_utf8;
use crate::search::TemplateEngine;
use crate::search::TemplateMetadata;
use crate::text::is_delimiter_line;
use crate::text::split_whitespace;
use crate::text::split_ws;
use crate::text::string_from_utf8;
use crate::text::trim_ws;

verus! {

/// Why a template's metadata could not be produced.
#[derive(Debug)]
pub enum MetadataError {
    /// A line of the metadata block was not valid UTF-8.
    InvalidUtf8,
    /// The stream ended before a delimited metadata block was found.
    InvalidMetadataError,
    /// The metadata block was found but could not be parsed; holds the
    /// parser's message.
    MetadataParseError(String),
}

/// Why an index could not be built; path-tagged where a source file is at
/// fault.
#[derive(Debug)]
pub enum IndexBuildError {
    /// A file operation failed: the path and the reported message.
    IoError(String, String),
    /// A record violated the index's block-size bound.
    InvalidIndex(String),
    /// A template's metadata was missing or malformed: the path and a message.
    TemplateParseError(String, String),
}

impl MetadataError {
    /// Attributes this error to the template file at `template_path`.
    pub fn to_index_error(self, template_path: &str) -> (r: IndexBuildError)
        ensures
            match self {
                MetadataError::InvalidUtf8 => r matches IndexBuildError::IoError(p, m) && p@
                    == template_path@ && m@ == "stream did not contain valid UTF-8"@,
                MetadataError::InvalidMetadataError => r matches IndexBuildError::TemplateParseError(
                    p,
                    m,
                ) && p@ == template_path@ && m@
                    == "Failed to find metadata on template: No template metadata found"@,
                MetadataError::MetadataParseError(err) => r
                    matches IndexBuildError::TemplateParseError(p, m) && p@ == template_path@ && m@
                    == "Failed to parse template metadata: "@ + err@,
            },
    {
        match self {
            MetadataError::InvalidUtf8 => IndexBuildError::IoError(
                template_path.to_owned(),
                "stream did not contain valid UTF-8".to_owned(),
            ),
            MetadataError::InvalidMetadataError => IndexBuildError::TemplateParseError(
                template_path.to_owned(),
                "Failed to find metadata on template: No template metadata found".to_owned(),
            ),
            MetadataError::MetadataParseError(err) => {
                let mut m = String::new();
                m.append("Failed to parse template metadata: ");
                m.append(err.as_str());
                IndexBuildError::TemplateParseError(template_path.to_owned(), m)
            },
        }
    }
}

/// The position of the first newline byte at or after `i`, or the end.
pub open spec fn line_end(bs: Seq<u8>, i: int) -> int
    recommends
        0 <= i <= bs.len(),
    decreases bs.len() - i,
    when 0 <= i <= bs.len()
{
    if i >= bs.len() {
        i
    } else if bs[i] == 10u8 {
        i
    } else {
        line_end(bs, i + 1)
    }
}

pub proof fn lemma_line_end_props(bs: Seq<u8>, i: int)
    requires
        0 <= i <= bs.len(),
    ensures
        i <= line_end(bs, i) <= bs.len(),
        line_end(bs, i) == bs.len() || bs[line_end(bs, i)] == 10u8,
        forall|m: int| i <= m < line_end(bs, i) ==> bs[m] != 10u8,
    decreases bs.len() - i,
{
    if i >= bs.len() {
    } else if bs[i] == 10u8 {
    } else {
        lemma_line_end_props(bs, i + 1);
    }
}

/// The bytes of the line starting at `i` and ending at `e`, without a
/// trailing carriage return when a newline follows at `e`.
pub open spec fn chomped_line(bs: Seq<u8>, i: int, e: int) -> Seq<u8>
    recommends
        0 <= i <= e <= bs.len(),
{
    let raw = bs.subrange(i, e);
    if e < bs.len() && raw.len() > 0 && raw.last() == 13u8 {
        raw.drop_last()
    } else {
        raw
    }
}

/// The delimiter-block scan, line by line from position `i`: before the first
/// `---` line nothing is kept; between the first and the second, each line
/// and a newline go into `acc`; the second `---` line ends the scan with the
/// accumulated block and the byte offset just past its own line. Running out
/// of input first is the missing-metadata error; a line of the block region
/// that is not valid UTF-8 is the encoding error.
pub open spec fn scan_meta(bs: Seq<u8>, i: int, in_block: bool, acc: Seq<char>) -> Result<
    (Seq<char>, int),
    MetadataError,
>
    recommends
        0 <= i <= bs.len(),
    decreases bs.len() - i,
    when 0 <= i <= bs.len()
    via scan_meta_decreases
{
    if i >= bs.len() {
        Err(MetadataError::InvalidMetadataError)
    } else {
        let e = line_end(bs, i);
        let lb = chomped_line(bs, i, e);
        let next = if e < bs.len() {
            e + 1
        } else {
            e
        };
        if !valid_utf8(lb) {
            Err(MetadataError::InvalidUtf8)
        } else {
            let lc = decode_utf8(lb);
            if trim_ws(lc) == seq!['-', '-', '-'] {
                if in_block {
                    Ok((acc, next))
                } else {
                    scan_meta(bs, next, true, acc)
                }
            } else if in_block {
                scan_meta(bs, next, true, acc + lc + seq!['\n'])
            } else {
                scan_meta(bs, next, false, acc)
            }
        }
    }
}

#[via_fn]
proof fn scan_meta_decreases(bs: Seq<u8>, i: int, in_block: bool, acc: Seq<char>) {
    if 0 <= i && i < bs.len() {
        lemma_line_end_props(bs, i);
    }
}

/// Scans the file content for a metadata block delimited by two `---` lines
/// and returns the block's text (lines joined by newlines) together with the
/// byte offset where the template body starts, as `scan_meta` describes.
pub fn get_raw_metadata(content: &Vec<u8>) -> (r: Result<(String, usize), MetadataError>)
    ensures
        match r {
            Ok((block, off)) => scan_meta(content@, 0, false, Seq::empty()) == Ok::<
                (Seq<char>, int),
                MetadataError,
            >((block@, off as int)),
            Err(e) => scan_meta(content@, 0, false, Seq::empty()) == Err::<
                (Seq<char>, int),
                MetadataError,
            >(e),
        },
{
    let ghost bs = content@;
    let mut i: usize = 0;
    let mut in_block = false;
    let mut block = String::new();
    while i < content.len()
        invariant
            i <= bs.len(),
            bs == content@,
            scan_meta(bs, 0, false, Seq::empty()) == scan_meta(bs, i as int, in_block, block@),
        decreases bs.len() - i,
    {
        proof {
            lemma_line_end_props(bs, i as int);
        }
        // find the end of the line
        let mut e: usize = i;
        let mut edone = false;
        while !edone
            invariant
                i <= e <= bs.len(),
                bs == content@,
                forall|m: int| i <= m < e ==> bs[m] != 10u8,
                edone ==> e == bs.len() || bs[e as int] == 10u8,
            decreases bs.len() - e + (if edone { 0int } else { 1int }),
        {
            if e < content.len() {
                if content[e] == 10u8 {
                    edone = true;
                } else {
                    e = e + 1;
                }
            } else {
                edone = true;
            }
        }
        proof {
            assert(line_end(bs, i as int) == e as int) by {
                lemma_line_end_props(bs, i as int);
                let le = line_end(bs, i as int);
                if le < e as int {
                    assert(bs[le] != 10u8);
                } else if le > e as int {
                    assert(bs[e as int] != 10u8);
                }
            }
        }
        // copy the line, dropping a trailing carriage return before a newline
        let mut lend = e;
        if e < content.len() && lend > i && content[lend - 1] == 13u8 {
            lend = lend - 1;
        }
        let mut lb: Vec<u8> = Vec::new();
        let mut m: usize = i;
        while m < lend
            invariant
                i <= m <= lend <= bs.len(),
                bs == content@,
                lb@ == bs.subrange(i as int, m as int),
            decreases lend - m,
        {
            lb.push(content[m]);
            m = m + 1;
            proof {
                assert(lb@ =~= bs.subrange(i as int, m as int));
            }
        }
        proof {
            let raw = bs.subrange(i as int, e as int);
            if (e as int) < bs.len() && raw.len() > 0 && raw.last() == 13u8 {
                assert(lb@ =~= raw.drop_last());
            } else {
                assert(lend == e);
                assert(lb@ =~= raw);
            }
            assert(lb@ == chomped_line(bs, i as int, e as int));
        }
        let next = if e < content.len() {
            e + 1
        } else {
            e
        };
        match string_from_utf8(lb) {
            None => {
                return Err(MetadataError::InvalidUtf8);
            },
            Some(line) => {
                if is_delimiter_line(line.as_str()) {
                    if in_block {
                        return Ok((block, next));
                    } else {
                        in_block = true;
                    }
                } else {
                    if in_block {
                        let ghost b0 = block@;
                        block.append(line.as_str());
                        block.append("\n");
                        proof {
                            reveal_strlit("\n");
                            assert("\n"@ =~= seq!['\n']);
                            assert(block@ == b0 + line@ + seq!['\n']);
                        }
                    }
                }
            },
        }
        i = next;
    }
    Err(MetadataError::InvalidMetadataError)
}

/// The three optional string fields read from a parsed metadata block:
/// `None` when the parse yielded no document.
pub type YamlFields = Option<(Option<Seq<char>>, Option<Seq<char>>, Option<Seq<char>>)>;

/// What reading three keys out of a YAML text yields: the error side carries
/// the scanner's message, `Ok(None)` is a parse with no document, and each
/// field is the key's string value, or absent. A pure function of the text
/// and the keys, so it only gets a name here.
pub uninterp spec fn yaml_fields_of(src: Seq<char>, k1: Seq<char>, k2: Seq<char>, k3: Seq<char>) -> Result<
    YamlFields,
    Seq<char>,
>;

/// The field values a lookup returned, as character sequences.
pub open spec fn fields_view(
    r: Result<Option<(Option<String>, Option<String>, Option<String>)>, String>,
) -> Result<YamlFields, Seq<char>> {
    match r {
        Ok(None) => Ok(None),
        Ok(Some((a, b, c))) => Ok(Some((opt_chars(a), opt_chars(b), opt_chars(c)))),
        Err(m) => Err(m@),
    }
}

/// Relies on yaml_rust's `YamlLoader::load_from_str`, its `Index<&str>` for
/// `Yaml`, and `Yaml::as_str`: parses the source and reads the three keys'
/// string values out of its first document. The outcome is a pure function
/// of the text and the keys, stated through the name `yaml_fields_of`: the
/// scanner reports malformed input as an error (rendered to text here, never
/// a panic), an empty document list comes back as `Ok(None)`, and a key that
/// is absent or not a string scalar leaves its field absent.
#[verifier::external_body]
fn yaml_str_fields(source: &str, k1: &str, k2: &str, k3: &str) -> (r: Result<
    Option<(Option<String>, Option<String>, Option<String>)>,
    String,
>)
    ensures
        fields_view(r) == yaml_fields_of(source@, k1@, k2@, k3@),
{
    match yaml_rust::YamlLoader::load_from_str(source) {
        Err(e) => Err(format!("{}", e)),
        Ok(docs) => match docs.get(0) {
            None => Ok(None),
            Some(d) => Ok(Some((
                d[k1].as_str().map(|v| v.to_string()),
                d[k2].as_str().map(|v| v.to_string()),
                d[k3].as_str().map(|v| v.to_string()),
            ))),
        },
    }
}

/// The view of an optional field value.
pub open spec fn opt_chars(v: Option<String>) -> Option<Seq<char>> {
    match v {
        Some(s) => Some(s@),
        None => None,
    }
}

/// An optional field value split on white space; an absent value stays
/// absent.
pub open spec fn split_field(v: Option<Seq<char>>) -> Option<Seq<Seq<char>>> {
    match v {
        Some(s) => Some(split_ws(s)),
        None => None,
    }
}

/// Builds a metadata record from the three raw field values: each present
/// value is split on white space into its list of strings, and an absent
/// value leaves the list absent, so that it contributes no index keys.
pub fn metadata_from_fields(
    prefix: Option<String>,
    suffix: Option<String>,
    tags: Option<String>,
) -> (r: TemplateMetadata)
    ensures
        r.spec_prefixes() == split_field(opt_chars(prefix)),
        r.spec_suffixes() == split_field(opt_chars(suffix)),
        r.spec_tags() == split_field(opt_chars(tags)),
{
    let p = match &prefix {
        Some(s) => Some(split_whitespace(s.as_str())),
        None => None,
    };
    let sf = match &suffix {
        Some(s) => Some(split_whitespace(s.as_str())),
        None => None,
    };
    let t = match &tags {
        Some(s) => Some(split_whitespace(s.as_str())),
        None => None,
    };
    TemplateMetadata::new(p, sf, t)
}

/// Parses the raw metadata block as YAML and reads the `prefix`, `suffix`
/// and `tags` fields, each one string to be split on white space; an absent
/// field stays absent. Succeeds exactly when the parse yields a document;
/// malformed input and an empty document list are parse errors, with the
/// offending condition in the message.
pub fn parse_metadata_yaml(raw_metadata: &str) -> (r: Result<TemplateMetadata, MetadataError>)
    ensures
        ({
            let f = yaml_fields_of(raw_metadata@, "prefix"@, "suffix"@, "tags"@);
            match r {
                Ok(m) => f matches Ok(Some(v)) && m.spec_prefixes() == split_field(v.0)
                    && m.spec_suffixes() == split_field(v.1) && m.spec_tags() == split_field(v.2),
                Err(e) => (f matches Err(em) && (e matches MetadataError::MetadataParseError(msg)
                    && msg@ == "Failed to parse template YAML metadata: "@ + em)) || (f == Ok::<
                    YamlFields,
                    Seq<char>,
                >(None) && (e matches MetadataError::MetadataParseError(msg) && msg@
                    == "Failed to parse template YAML metadata: no document"@)),
            }
        }),
{
    match yaml_str_fields(raw_metadata, "prefix", "suffix", "tags") {
        Err(e) => {
            let mut m = String::new();
            m.append("Failed to parse template YAML metadata: ");
            m.append(e.as_str());
            Err(MetadataError::MetadataParseError(m))
        },
        Ok(None) => Err(
            MetadataError::MetadataParseError(
                "Failed to parse template YAML metadata: no document".to_owned(),
            ),
        ),
        Ok(Some((p, sf, t))) => Ok(metadata_from_fields(p, sf, t)),
    }
}

/// A template file's metadata and the byte offset where its body starts,
/// read from the file's content: the delimited block is located as
/// `scan_meta` describes and its fields read as `yaml_fields_of` names them.
pub fn extract_template(content: &Vec<u8>) -> (r: Result<(TemplateMetadata, usize), MetadataError>)
    ensures
        ({
            let scan = scan_meta(content@, 0, false, Seq::empty());
            match r {
                Ok((m, off)) => scan matches Ok(b) && b.1 == off as int && (yaml_fields_of(
                    b.0,
                    "prefix"@,
                    "suffix"@,
                    "tags"@,
                ) matches Ok(Some(v)) && m.spec_prefixes() == split_field(v.0)
                    && m.spec_suffixes() == split_field(v.1) && m.spec_tags() == split_field(
                    v.2,
                )),
                Err(e) => (scan == Err::<(Seq<char>, int), MetadataError>(e)) || (scan matches Ok(
                    b,
                ) && e matches MetadataError::MetadataParseError(_) && !(yaml_fields_of(
                    b.0,
                    "prefix"@,
                    "suffix"@,
                    "tags"@,
                ) matches Ok(Some(_)))),
            }
        }),
{
    let (block, off) = match get_raw_metadata(content) {
        Ok(x) => x,
        Err(e) => {
            return Err(e);
        },
    };
    let m = match parse_metadata_yaml(block.as_str()) {
        Ok(m) => m,
        Err(e) => {
            return Err(e);
        },
    };
    Ok((m, off))
}

/// Where an index is built from and kept.
pub struct TemplateOptions {
    pub template_source_dir: String,
    pub cached_templates_dir: String,
    pub index_path: String,
    pub block_size: usize,
}

/// A template whose body was copied into the cache: the cache-relative path
/// of the copy and the parsed metadata.
pub struct CachedTemplate {
    path: String,
    metadata: TemplateMetadata,
}

impl CachedTemplate {
    pub closed spec fn spec_path(self) -> Seq<char> {
        self.path@
    }

    pub closed spec fn spec_metadata(self) -> TemplateMetadata {
        self.metadata
    }

    pub fn new(path: String, metadata: TemplateMetadata) -> (r: Self)
        ensures
            r.spec_path() == path@,
            r.spec_metadata() == metadata,
    {
        CachedTemplate { path, metadata }
    }
}

/// A template's metadata together with its body text.
pub struct Template {
    pub metadata: TemplateMetadata,
    pub content: String,
}

/// The ordered list of cached templates: a template's position is its id,
/// the join key between the search engine and the on-disk index.
pub struct TemplateIndex {
    templates: Vec<CachedTemplate>,
    options: TemplateOptions,
}

impl TemplateIndex {
    pub closed spec fn spec_paths(self) -> Seq<Seq<char>> {
        self.templates@.map_values(|t: CachedTemplate| t.spec_path())
    }

    pub closed spec fn spec_metas(self) -> Seq<TemplateMetadata> {
        self.templates@.map_values(|t: CachedTemplate| t.spec_metadata())
    }

    pub closed spec fn spec_block_size(self) -> usize {
        self.options.block_size
    }

    pub fn new(options: TemplateOptions) -> (r: Self)
        ensures
            r.spec_paths() == Seq::<Seq<char>>::empty(),
            r.spec_metas() == Seq::<TemplateMetadata>::empty(),
            r.spec_block_size() == options.block_size,
    {
        let r = TemplateIndex { options, templates: Vec::new() };
        proof {
            assert(r.spec_paths() =~= Seq::<Seq<char>>::empty());
            assert(r.spec_metas() =~= Seq::<TemplateMetadata>::empty());
        }
        r
    }

    /// Appends a cached template; its id is its position, so the list is
    /// append-only and order-stable.
    pub fn push_template(&mut self, t: CachedTemplate)
        ensures
            final(self).spec_paths() == old(self).spec_paths().push(t.spec_path()),
            final(self).spec_metas() == old(self).spec_metas().push(t.spec_metadata()),
            final(self).spec_block_size() == old(self).spec_block_size(),
    {
        self.templates.push(t);
        proof {
            assert(self.spec_paths() =~= old(self).spec_paths().push(t.spec_path()));
            assert(self.spec_metas() =~= old(self).spec_metas().push(t.spec_metadata()));
        }
    }

    pub fn len(&self) -> (r: usize)
        ensures
            r == self.spec_paths().len(),
    {
        self.templates.len()
    }

    /// The index file's bytes for the current template list, one zero-padded
    /// block per cached path in id order, as `write_template_index` promises.
    pub fn index_bytes(&self) -> (r: Result<Vec<u8>, IndexBuildError>)
        ensures
            ({
                let bad = crate::template_index::first_too_long(
                    self.spec_paths(),
                    self.spec_block_size() as nat,
                );
                match r {
                    Ok(bytes) => bad == -1 && bytes@ == crate::template_index::blocks_bytes(
                        self.spec_paths(),
                        self.spec_block_size() as nat,
                    ),
                    Err(e) => bad >= 0 && (e matches IndexBuildError::InvalidIndex(m) && m@
                        == crate::template_index::too_long_msg(
                            self.spec_paths()[bad],
                            self.spec_block_size() as nat,
                        )),
                }
            }),
    {
        let mut paths: Vec<String> = Vec::new();
        let mut i: usize = 0;
        while i < self.templates.len()
            invariant
                i <= self.templates@.len(),
                paths.deep_view() =~= self.spec_paths().take(i as int),
            decreases self.templates@.len() - i,
        {
            let ghost pd0 = paths.deep_view();
            let p = self.templates[i].path.clone();
            proof {
                assert(p@ == self.spec_paths()[i as int]);
            }
            paths.push(p);
            i = i + 1;
            proof {
                assert(paths.deep_view() =~= pd0.push(p@));
                assert(pd0.push(p@) =~= self.spec_paths().take(i as int));
            }
        }
        proof {
            assert(self.spec_paths().take(self.templates@.len() as int) =~= self.spec_paths());
        }
        crate::template_index::write_template_index(&paths, self.options.block_size)
    }

    /// Resolves ids against the index file's bytes, as `read_template_index`
    /// promises: each id yields the path its block holds, or nothing when the
    /// block lies past the end or holds no text.
    pub fn get_templates_path(&self, data: &Vec<u8>, indexes: &Vec<usize>) -> (r: Vec<
        (usize, Option<String>),
    >)
        ensures
            r@.len() == indexes@.len(),
            forall|i: int|
                0 <= i < r@.len() ==> (#[trigger] r@[i]).0 == indexes@[i] && (match r@[i].1 {
                    Some(p) => crate::template_index::resolve_one(
                        data@,
                        self.spec_block_size() as nat,
                        indexes@[i] as nat,
                    ) == Some(p@),
                    None => crate::template_index::resolve_one(
                        data@,
                        self.spec_block_size() as nat,
                        indexes@[i] as nat,
                    ) is None,
                }),
    {
        crate::template_index::read_template_index(data, self.options.block_size, indexes)
    }

    /// Builds the search engine from the cached templates' metadata, in id
    /// order, as `TemplateEngine::from_templates` promises.
    pub fn to_engine(&self) -> (r: TemplateEngine)
        ensures
            crate::search::ids_view(r.prefix_contents()) == crate::search::insert_all_ids(
                Map::<Seq<Seq<char>>, Seq<usize>>::empty(),
                crate::search::signal_entries(crate::search::prefix_lists(self.spec_metas())),
            ),
            crate::search::ids_view(r.suffix_contents()) == crate::search::insert_all_ids(
                Map::<Seq<Seq<char>>, Seq<usize>>::empty(),
                crate::search::rev_entries(
                    crate::search::signal_entries(
                        crate::search::suffix_lists(self.spec_metas()),
                    ),
                ),
            ),
            crate::search::ids_view(r.tag_contents()) == crate::search::insert_all_ids(
                Map::<Seq<Seq<char>>, Seq<usize>>::empty(),
                crate::search::signal_entries(crate::search::tag_lists(self.spec_metas())),
            ),
    {
        let mut metadata: Vec<TemplateMetadata> = Vec::new();
        let mut i: usize = 0;
        while i < self.templates.len()
            invariant
                i <= self.templates@.len(),
                metadata@.len() == i,
                forall|m: int|
                    0 <= m < i ==> {
                        &&& (#[trigger] metadata@[m]).spec_prefixes() == self.spec_metas()[m].spec_prefixes()
                        &&& metadata@[m].spec_suffixes() == self.spec_metas()[m].spec_suffixes()
                        &&& metadata@[m].spec_tags() == self.spec_metas()[m].spec_tags()
                    },
            decreases self.templates@.len() - i,
        {
            metadata.push(self.templates[i].metadata.clone());
            i = i + 1;
        }
        let r = TemplateEngine::from_templates(metadata);
        proof {
            assert(crate::search::prefix_lists(metadata@) =~= crate::search::prefix_lists(
                self.spec_metas(),
            ));
            assert(crate::search::suffix_lists(metadata@) =~= crate::search::suffix_lists(
                self.spec_metas(),
            ));
            assert(crate::search::tag_lists(metadata@) =~= crate::search::tag_lists(
                self.spec_metas(),
            ));
        }
        r
    }
}

} // verus!

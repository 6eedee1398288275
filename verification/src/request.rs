//! The request assembly engine: buckets classified items into query
//! parameters, headers, and body contributors; runs the body-type state
//! machine (`Undecided` moves to `JSON` or `Form` once and conflicting
//! demands are fatal); and encodes the resolved body as JSON or
//! form-urlencoded, with a pretty preview in insertion order.

use vstd::prelude::*;

use crate::json::{
    json_compact_of, json_ok, json_pretty_of, json_quote, json_reformat_compact,
    json_reformat_pretty, quote_into,
};
use crate::output::{Body, BodyModel};
use crate::request_item::{
    chars_to_string, str_eq, str_to_chars, RequestItem, RequestItemModel, RequestItemType,
};

verus! {

/// The single encoding chosen for a whole request body.
#[derive(Clone, Copy, Debug, PartialEq, Eq, Structural)]
pub enum BodyType {
    JSON,
    Form,
    Multipart,
    Undecided,
}

/// A fatal assembly failure; no request is built once one occurs.
#[derive(Clone, Debug)]
pub enum AssembleError {
    /// A field demanded an encoding after the opposite one was fixed.
    BodyTypeConflict { key: String },
    /// A `FormFile` item: file upload is reserved, never silently dropped.
    NotImplemented { key: String },
    /// An inline or file-sourced JSON literal that the codec rejects.
    JsonSyntax { key: String },
    /// The base URL does not parse.
    UrlParse,
}

/// Model of an [`AssembleError`].
pub ghost enum AssembleErrorModel {
    BodyTypeConflict { key: Seq<char> },
    NotImplemented { key: Seq<char> },
    JsonSyntax { key: Seq<char> },
    UrlParse,
}

impl View for AssembleError {
    type V = AssembleErrorModel;

    open spec fn view(&self) -> AssembleErrorModel {
        match self {
            AssembleError::BodyTypeConflict { key } => AssembleErrorModel::BodyTypeConflict {
                key: key@,
            },
            AssembleError::NotImplemented { key } => AssembleErrorModel::NotImplemented {
                key: key@,
            },
            AssembleError::JsonSyntax { key } => AssembleErrorModel::JsonSyntax { key: key@ },
            AssembleError::UrlParse => AssembleErrorModel::UrlParse,
        }
    }
}

/// A fully assembled request, ready for the transport: the method, the
/// URL with the query string applied, the headers in input order, the
/// body preview for the renderer, and the exact payload bytes to send.
#[derive(Debug)]
pub struct RequestDescriptor {
    pub method: String,
    pub url: String,
    pub headers: Vec<(String, String)>,
    pub body: Body,
    pub payload: String,
}

/// Model of a [`RequestDescriptor`].
pub ghost struct RequestDescriptorModel {
    pub method: Seq<char>,
    pub url: Seq<char>,
    pub headers: Seq<(Seq<char>, Seq<char>)>,
    pub body: BodyModel,
    pub payload: Seq<char>,
}

impl View for RequestDescriptor {
    type V = RequestDescriptorModel;

    open spec fn view(&self) -> RequestDescriptorModel {
        RequestDescriptorModel {
            method: self.method@,
            url: self.url@,
            headers: pairs_view(self.headers@),
            body: self.body@,
            payload: self.payload@,
        }
    }
}

/// One resolved body contribution: a plain string field, or a validated
/// JSON literal kept in both renderings.
#[derive(Clone, Debug)]
pub enum BodyValue {
    Text(String),
    Json { compact: String, pretty: String },
}

/// Model of a body contribution.
pub ghost enum BodyValueModel {
    Text(Seq<char>),
    Json { compact: Seq<char>, pretty: Seq<char> },
}

impl View for BodyValue {
    type V = BodyValueModel;

    open spec fn view(&self) -> BodyValueModel {
        match self {
            BodyValue::Text(s) => BodyValueModel::Text(s@),
            BodyValue::Json { compact, pretty } => BodyValueModel::Json {
                compact: compact@,
                pretty: pretty@,
            },
        }
    }
}

/// The state the body builder threads through the items: the encoding
/// chosen so far and the fields collected so far, in insertion order.
pub ghost struct BodyState {
    pub bt: BodyType,
    pub entries: Seq<(Seq<char>, BodyValueModel)>,
}

/// String pairs as character-sequence pairs.
pub open spec fn pairs_view(ps: Seq<(String, String)>) -> Seq<(Seq<char>, Seq<char>)> {
    ps.map_values(|p: (String, String)| (p.0@, p.1@))
}

/// Request items as their models.
pub open spec fn items_view(items: Seq<RequestItem>) -> Seq<RequestItemModel> {
    items.map_values(|it: RequestItem| it@)
}

/// Optional file contents as optional character sequences.
pub open spec fn contents_view(cs: Seq<Option<String>>) -> Seq<Option<Seq<char>>> {
    cs.map_values(
        |o: Option<String>|
            match o {
                Option::Some(s) => Option::Some(s@),
                Option::None => Option::None,
            },
    )
}

/// Body entries as their models.
pub open spec fn entries_view(es: Seq<(String, BodyValue)>) -> Seq<(Seq<char>, BodyValueModel)> {
    es.map_values(|e: (String, BodyValue)| (e.0@, e.1@))
}

/// The variants whose value names a file to read rather than the
/// content itself.
pub open spec fn is_file_variant(v: RequestItemType) -> bool {
    v == RequestItemType::FileDataField || v == RequestItemType::FileJsonData
}

/// Whether assembly needs this item's file read first: its value is a
/// path, and the caller must supply the file's text alongside the item.
pub fn needs_file_contents(item: &RequestItem) -> (b: bool)
    ensures
        b == is_file_variant(item@.variant),
{
    match item.variant {
        RequestItemType::FileDataField => true,
        RequestItemType::FileJsonData => true,
        _ => false,
    }
}

/// The `(key, value)` pairs of the `URLParameter` items from index `i`
/// on, in input order, duplicates kept.
pub open spec fn query_pairs_from(items: Seq<RequestItemModel>, i: int) -> Seq<
    (Seq<char>, Seq<char>),
>
    decreases items.len() - i,
{
    if i < 0 || i >= items.len() {
        Seq::empty()
    } else {
        (if items[i].variant == RequestItemType::URLParameter {
            seq![(items[i].key, items[i].value)]
        } else {
            Seq::empty()
        }) + query_pairs_from(items, i + 1)
    }
}

/// All query parameter pairs, in input order.
pub open spec fn query_pairs(items: Seq<RequestItemModel>) -> Seq<(Seq<char>, Seq<char>)> {
    query_pairs_from(items, 0)
}

/// The `(key, value)` pairs of the `HTTPHeader` items from index `i`
/// on, in input order, duplicates kept.
pub open spec fn header_pairs_from(items: Seq<RequestItemModel>, i: int) -> Seq<
    (Seq<char>, Seq<char>),
>
    decreases items.len() - i,
{
    if i < 0 || i >= items.len() {
        Seq::empty()
    } else {
        (if items[i].variant == RequestItemType::HTTPHeader {
            seq![(items[i].key, items[i].value)]
        } else {
            Seq::empty()
        }) + header_pairs_from(items, i + 1)
    }
}

/// All header pairs, in input order.
pub open spec fn header_pairs(items: Seq<RequestItemModel>) -> Seq<(Seq<char>, Seq<char>)> {
    header_pairs_from(items, 0)
}

/// The index of the first entry with key `k`, from `j` on; `-1` when no
/// entry has it.
pub open spec fn key_index_from(
    es: Seq<(Seq<char>, BodyValueModel)>,
    k: Seq<char>,
    j: int,
) -> int
    decreases es.len() - j,
{
    if j < 0 || j >= es.len() {
        -1
    } else if es[j].0 == k {
        j
    } else {
        key_index_from(es, k, j + 1)
    }
}

/// Writes `v` under `k`: a later write to an existing key replaces the
/// value in place — last write wins, first write fixes the position — and
/// a new key is appended at the end.
pub open spec fn upsert(
    es: Seq<(Seq<char>, BodyValueModel)>,
    k: Seq<char>,
    v: BodyValueModel,
) -> Seq<(Seq<char>, BodyValueModel)> {
    let i = key_index_from(es, k, 0);
    if i < 0 {
        es.push((k, v))
    } else {
        es.update(i, (k, v))
    }
}

/// A JSON-demanding field: fatal once `Form` (or anything other than
/// `JSON`) is already fixed; otherwise the text must be one valid JSON
/// value, and the body moves to `JSON` with the field written under its
/// key in both renderings.
pub open spec fn json_field_step(st: BodyState, key: Seq<char>, text: Seq<char>) -> Result<
    BodyState,
    AssembleErrorModel,
> {
    if !(st.bt == BodyType::Undecided || st.bt == BodyType::JSON) {
        Err(AssembleErrorModel::BodyTypeConflict { key })
    } else if !json_ok(text) {
        Err(AssembleErrorModel::JsonSyntax { key })
    } else {
        Ok(
            BodyState {
                bt: BodyType::JSON,
                entries: upsert(
                    st.entries,
                    key,
                    BodyValueModel::Json {
                        compact: json_compact_of(text),
                        pretty: indent_text(json_pretty_of(text)),
                    },
                ),
            },
        )
    }
}

/// One item's effect on the body state. Query parameters and headers
/// contribute nothing here; a file-sourced item uses the supplied file
/// text in place of its value; `FormFile` is always fatal — a conflict
/// once `JSON` is fixed, otherwise "not implemented".
pub open spec fn body_step(
    st: BodyState,
    item: RequestItemModel,
    content: Option<Seq<char>>,
) -> Result<BodyState, AssembleErrorModel> {
    match item.variant {
        RequestItemType::HTTPHeader => Ok(st),
        RequestItemType::URLParameter => Ok(st),
        RequestItemType::DataField => Ok(
            BodyState {
                bt: st.bt,
                entries: upsert(st.entries, item.key, BodyValueModel::Text(item.value)),
            },
        ),
        RequestItemType::FileDataField => Ok(
            BodyState {
                bt: st.bt,
                entries: upsert(st.entries, item.key, BodyValueModel::Text(content.unwrap())),
            },
        ),
        RequestItemType::JsonData => json_field_step(st, item.key, item.value),
        RequestItemType::FileJsonData => json_field_step(st, item.key, content.unwrap()),
        RequestItemType::FormFile => if st.bt == BodyType::JSON {
            Err(AssembleErrorModel::BodyTypeConflict { key: item.key })
        } else {
            Err(AssembleErrorModel::NotImplemented { key: item.key })
        },
    }
}

/// Folds [`body_step`] over the items from index `i` on, stopping at the
/// first fatal item.
pub open spec fn body_fold(
    items: Seq<RequestItemModel>,
    contents: Seq<Option<Seq<char>>>,
    i: int,
    st: BodyState,
) -> Result<BodyState, AssembleErrorModel>
    decreases items.len() - i,
{
    if i < 0 || i >= items.len() {
        Ok(st)
    } else {
        match body_step(st, items[i], contents[i]) {
            Err(e) => Err(e),
            Ok(st2) => body_fold(items, contents, i + 1, st2),
        }
    }
}

/// `s` with two spaces inserted after every newline: how an inner
/// pretty-printed value is re-indented to sit one level deep inside the
/// top-level object.
pub open spec fn indent_text(s: Seq<char>) -> Seq<char>
    decreases s.len(),
{
    if s.len() == 0 {
        Seq::empty()
    } else {
        (if s[0] == '\n' {
            seq!['\n', ' ', ' ']
        } else {
            seq![s[0]]
        }) + indent_text(s.drop_first())
    }
}

/// Indenting distributes over appending one character at the end.
proof fn lemma_indent_push(s: Seq<char>, c: char)
    ensures
        indent_text(s.push(c)) == indent_text(s) + (if c == '\n' {
            seq!['\n', ' ', ' ']
        } else {
            seq![c]
        }),
    decreases s.len(),
{
    let tail = if c == '\n' {
        seq!['\n', ' ', ' ']
    } else {
        seq![c]
    };
    if s.len() == 0 {
        assert(s.push(c)[0] == c);
        assert(s.push(c).drop_first() =~= Seq::<char>::empty());
        assert(indent_text(s.push(c)) =~= tail + indent_text(Seq::<char>::empty()));
        assert(indent_text(s.push(c)) =~= tail);
        assert(indent_text(s) + tail =~= tail);
    } else {
        lemma_indent_push(s.drop_first(), c);
        assert(s.push(c).drop_first() =~= s.drop_first().push(c));
        assert(s.push(c)[0] == s[0]);
        let head = if s[0] == '\n' {
            seq!['\n', ' ', ' ']
        } else {
            seq![s[0]]
        };
        assert(indent_text(s) + tail =~= head + (indent_text(s.drop_first()) + tail));
    }
}

/// A body value in the compact wire rendering: a plain field as a JSON
/// string literal, a JSON field as the codec's compact text.
pub open spec fn compact_value(v: BodyValueModel) -> Seq<char> {
    match v {
        BodyValueModel::Text(s) => json_quote(s),
        BodyValueModel::Json { compact, pretty } => compact,
    }
}

/// A body value in the pretty preview rendering: a plain field as a JSON
/// string literal, a JSON field as the codec's pretty text re-indented
/// one level.
pub open spec fn pretty_value(v: BodyValueModel) -> Seq<char> {
    match v {
        BodyValueModel::Text(s) => json_quote(s),
        BodyValueModel::Json { compact, pretty } => pretty,
    }
}

/// The comma-separated `"key":value` runs of the compact object, from
/// entry `i` on.
pub open spec fn compact_entries_from(es: Seq<(Seq<char>, BodyValueModel)>, i: int) -> Seq<char>
    decreases es.len() - i,
{
    if i < 0 || i >= es.len() {
        Seq::empty()
    } else {
        (if i > 0 {
            seq![',']
        } else {
            Seq::empty()
        }) + json_quote(es[i].0) + seq![':'] + compact_value(es[i].1) + compact_entries_from(
            es,
            i + 1,
        )
    }
}

/// The whole body as one compact JSON object, keys in insertion order.
pub open spec fn compact_object(es: Seq<(Seq<char>, BodyValueModel)>) -> Seq<char> {
    seq!['{'] + compact_entries_from(es, 0) + seq!['}']
}

/// The `"key": value` lines of the pretty object, from entry `i` on,
/// separated by a comma, a newline and one level of indentation.
pub open spec fn pretty_entries_from(es: Seq<(Seq<char>, BodyValueModel)>, i: int) -> Seq<char>
    decreases es.len() - i,
{
    if i < 0 || i >= es.len() {
        Seq::empty()
    } else {
        (if i > 0 {
            seq![',', '\n', ' ', ' ']
        } else {
            Seq::empty()
        }) + json_quote(es[i].0) + seq![':', ' '] + pretty_value(es[i].1) + pretty_entries_from(
            es,
            i + 1,
        )
    }
}

/// The whole body as one pretty-printed JSON object, keys in insertion
/// order; the empty object stays on one line.
pub open spec fn pretty_object(es: Seq<(Seq<char>, BodyValueModel)>) -> Seq<char> {
    if es.len() == 0 {
        seq!['{', '}']
    } else {
        seq!['{', '\n', ' ', ' '] + pretty_entries_from(es, 0) + seq!['\n', '}']
    }
}

/// The entries as plain string pairs; only meaningful when every entry
/// is a plain field, which holds whenever the body encoding is `Form`.
pub open spec fn text_pairs(es: Seq<(Seq<char>, BodyValueModel)>) -> Seq<(Seq<char>, Seq<char>)> {
    es.map_values(
        |e: (Seq<char>, BodyValueModel)|
            (
                e.0,
                match e.1 {
                    BodyValueModel::Text(s) => s,
                    BodyValueModel::Json { compact, pretty } => Seq::empty(),
                },
            ),
    )
}

/// What the form-urlencoded serializer returns for a sequence of string
/// pairs; a fixed function of the pairs alone.
pub uninterp spec fn form_encoded(pairs: Seq<(Seq<char>, Seq<char>)>) -> Seq<char>;

/// Relies on `serde_urlencoded::to_string`: serializing a sequence of
/// string pairs percent-encodes each key and value and joins them as
/// `k=v&k2=v2`; on string pairs its serializer has no failure path (its
/// errors arise only from byte values or from custom `Serialize` impls).
#[verifier::external_body]
fn form_encode(pairs: &Vec<(String, String)>) -> (r: String)
    ensures
        r@ == form_encoded(pairs_view(pairs@)),
{
    match serde_urlencoded::to_string(pairs) {
        Ok(s) => s,
        Err(_) => String::new(),
    }
}

#[verifier::external_type_specification]
#[verifier::external_body]
pub struct ExUrlParseError(url::ParseError);

/// What `url::Url::parse_with_params` yields for a base URL and query
/// pairs, as the final URL text; `None` exactly when the base does not
/// parse. A fixed function of base and pairs alone.
pub uninterp spec fn url_with_query(base: Seq<char>, pairs: Seq<(Seq<char>, Seq<char>)>) -> Option<
    Seq<char>,
>;

/// Relies on `url::Url::parse_with_params`: it parses the base URL —
/// failure depends on the base alone — and appends each pair,
/// percent-encoded, to the query in order; the result depends only on
/// the base and the pairs.
#[verifier::external_body]
fn build_url(base: &str, pairs: &Vec<(String, String)>) -> (r: Result<String, url::ParseError>)
    ensures
        r is Ok <==> url_with_query(base@, pairs_view(pairs@)) is Some,
        r is Ok ==> r.unwrap()@ == url_with_query(base@, pairs_view(pairs@)).unwrap(),
{
    match url::Url::parse_with_params(base, pairs) {
        Ok(u) => Ok(String::from(u)),
        Err(e) => Err(e),
    }
}

/// The body tag the renderer gets for a finished body state: `Form` with
/// the encoded pairs, `Json` with the pretty object, or `Empty` when
/// nothing decided an encoding and no field arrived.
pub open spec fn final_body(st: BodyState) -> BodyModel {
    if st.bt == BodyType::Form {
        BodyModel::Form(form_encoded(text_pairs(st.entries)))
    } else if st.bt == BodyType::JSON {
        BodyModel::Json(pretty_object(st.entries))
    } else if st.entries.len() == 0 {
        BodyModel::Empty
    } else {
        BodyModel::Json(pretty_object(st.entries))
    }
}

/// The payload bytes sent for a finished body state: the form encoding,
/// the compact JSON object, or nothing.
pub open spec fn final_payload(st: BodyState) -> Seq<char> {
    if st.bt == BodyType::Form {
        form_encoded(text_pairs(st.entries))
    } else if st.bt == BodyType::JSON {
        compact_object(st.entries)
    } else if st.entries.len() == 0 {
        Seq::empty()
    } else {
        compact_object(st.entries)
    }
}

/// Writes `v` under `k` in the entry vector, per [`upsert`].
fn upsert_exec(es: &mut Vec<(String, BodyValue)>, k: String, v: BodyValue)
    ensures
        entries_view(final(es)@) == upsert(entries_view(old(es)@), k@, v@),
{
    let n = es.len();
    let mut i: usize = 0;
    while i < n
        invariant
            i <= n,
            n == es@.len(),
            es@ == old(es)@,
            key_index_from(entries_view(es@), k@, 0) == key_index_from(
                entries_view(es@),
                k@,
                i as int,
            ),
        decreases n - i,
    {
        if str_eq(es[i].0.as_str(), k.as_str()) {
            proof {
                assert(entries_view(es@)[i as int].0 == k@);
                assert(key_index_from(entries_view(es@), k@, i as int) == i as int);
            }
            es[i] = (k, v);
            proof {
                assert(entries_view(es@) =~= upsert(entries_view(old(es)@), k@, v@));
            }
            return ;
        }
        i += 1;
    }
    es.push((k, v));
    proof {
        assert(entries_view(es@) =~= upsert(entries_view(old(es)@), k@, v@));
    }
}

/// The query parameter pairs of the items, in input order.
fn gather_query_pairs(items: &Vec<RequestItem>) -> (qp: Vec<(String, String)>)
    ensures
        pairs_view(qp@) == query_pairs(items_view(items@)),
{
    let ghost iv = items_view(items@);
    let n = items.len();
    let mut qp: Vec<(String, String)> = Vec::new();
    let mut i: usize = 0;
    proof {
        assert(pairs_view(qp@) =~= Seq::<(Seq<char>, Seq<char>)>::empty());
    }
    while i < n
        invariant
            i <= n,
            n == items@.len(),
            iv == items_view(items@),
            query_pairs(iv) == pairs_view(qp@) + query_pairs_from(iv, i as int),
        decreases n - i,
    {
        let ghost pre = pairs_view(qp@);
        let it = &items[i];
        proof {
            assert(iv[i as int] == items@[i as int]@);
        }
        match it.variant {
            RequestItemType::URLParameter => {
                qp.push((it.key.clone(), it.value.clone()));
                proof {
                    assert(pairs_view(qp@) =~= pre.push((it.key@, it.value@)));
                    assert(pre.push((it.key@, it.value@)) + query_pairs_from(iv, i + 1) =~= pre
                        + query_pairs_from(iv, i as int));
                }
            },
            _ => {
                proof {
                    assert(query_pairs_from(iv, i as int) =~= query_pairs_from(iv, i + 1));
                }
            },
        }
        i += 1;
    }
    proof {
        assert(query_pairs_from(iv, n as int) =~= Seq::<(Seq<char>, Seq<char>)>::empty());
        assert(pairs_view(qp@) =~= query_pairs(iv));
    }
    qp
}

/// The header pairs of the items, in input order.
fn gather_header_pairs(items: &Vec<RequestItem>) -> (hs: Vec<(String, String)>)
    ensures
        pairs_view(hs@) == header_pairs(items_view(items@)),
{
    let ghost iv = items_view(items@);
    let n = items.len();
    let mut hs: Vec<(String, String)> = Vec::new();
    let mut i: usize = 0;
    proof {
        assert(pairs_view(hs@) =~= Seq::<(Seq<char>, Seq<char>)>::empty());
    }
    while i < n
        invariant
            i <= n,
            n == items@.len(),
            iv == items_view(items@),
            header_pairs(iv) == pairs_view(hs@) + header_pairs_from(iv, i as int),
        decreases n - i,
    {
        let ghost pre = pairs_view(hs@);
        let it = &items[i];
        proof {
            assert(iv[i as int] == items@[i as int]@);
        }
        match it.variant {
            RequestItemType::HTTPHeader => {
                hs.push((it.key.clone(), it.value.clone()));
                proof {
                    assert(pairs_view(hs@) =~= pre.push((it.key@, it.value@)));
                    assert(pre.push((it.key@, it.value@)) + header_pairs_from(iv, i + 1) =~= pre
                        + header_pairs_from(iv, i as int));
                }
            },
            _ => {
                proof {
                    assert(header_pairs_from(iv, i as int) =~= header_pairs_from(iv, i + 1));
                }
            },
        }
        i += 1;
    }
    proof {
        assert(header_pairs_from(iv, n as int) =~= Seq::<(Seq<char>, Seq<char>)>::empty());
        assert(pairs_view(hs@) =~= header_pairs(iv));
    }
    hs
}

/// Appends the characters of `s` to `out`.
fn push_str_chars(out: &mut Vec<char>, s: &str)
    ensures
        final(out)@ == old(out)@ + s@,
{
    let mut cs = str_to_chars(s);
    out.append(&mut cs);
}

/// Appends `s` with every newline followed by one extra level of
/// indentation, per [`indent_text`].
fn indent_into(out: &mut Vec<char>, s: &str)
    ensures
        final(out)@ == old(out)@ + indent_text(s@),
{
    let chars = str_to_chars(s);
    let n = chars.len();
    let mut i: usize = 0;
    proof {
        assert(indent_text(s@.subrange(0, 0)) =~= Seq::<char>::empty());
        assert(out@ =~= old(out)@ + indent_text(s@.subrange(0, 0)));
    }
    while i < n
        invariant
            n == chars@.len(),
            chars@ == s@,
            i <= n,
            out@ == old(out)@ + indent_text(s@.subrange(0, i as int)),
        decreases n - i,
    {
        let c = chars[i];
        if c == '\n' {
            out.push('\n');
            out.push(' ');
            out.push(' ');
        } else {
            out.push(c);
        }
        i += 1;
        proof {
            let pre = s@.subrange(0, i - 1);
            lemma_indent_push(pre, s@[i - 1]);
            assert(pre.push(s@[i - 1]) =~= s@.subrange(0, i as int));
            assert(out@ =~= old(out)@ + indent_text(s@.subrange(0, i as int)));
        }
    }
    proof {
        assert(s@.subrange(0, n as int) =~= s@);
    }
}

/// `s` re-indented one level, as a fresh string.
fn indent_string(s: &str) -> (r: String)
    ensures
        r@ == indent_text(s@),
{
    let mut out: Vec<char> = Vec::new();
    indent_into(&mut out, s);
    chars_to_string(&out)
}

/// The compact wire text of the whole body object, per
/// [`compact_object`].
fn encode_compact(entries: &Vec<(String, BodyValue)>) -> (s: String)
    ensures
        s@ == compact_object(entries_view(entries@)),
{
    let ghost ev = entries_view(entries@);
    let mut out: Vec<char> = Vec::new();
    out.push('{');
    let n = entries.len();
    let mut i: usize = 0;
    proof {
        assert(out@ =~= seq!['{']);
    }
    while i < n
        invariant
            i <= n,
            n == entries@.len(),
            ev == entries_view(entries@),
            out@ + compact_entries_from(ev, i as int) == seq!['{'] + compact_entries_from(ev, 0),
        decreases n - i,
    {
        let ghost pre = out@;
        if i > 0 {
            out.push(',');
        }
        quote_into(&mut out, entries[i].0.as_str());
        out.push(':');
        match &entries[i].1 {
            BodyValue::Text(t) => quote_into(&mut out, t.as_str()),
            BodyValue::Json { compact, pretty } => push_str_chars(&mut out, compact.as_str()),
        }
        proof {
            assert(ev[i as int] == (entries@[i as int].0@, entries@[i as int].1@));
            assert(out@ =~= pre + ((if i > 0 {
                seq![',']
            } else {
                Seq::<char>::empty()
            }) + json_quote(ev[i as int].0) + seq![':'] + compact_value(ev[i as int].1)));
            assert(pre + compact_entries_from(ev, i as int) =~= out@ + compact_entries_from(
                ev,
                i + 1,
            ));
        }
        i += 1;
    }
    out.push('}');
    proof {
        assert(compact_entries_from(ev, n as int) =~= Seq::<char>::empty());
        assert(out@ =~= compact_object(ev));
    }
    chars_to_string(&out)
}

/// The pretty preview text of the whole body object, per
/// [`pretty_object`].
fn encode_pretty(entries: &Vec<(String, BodyValue)>) -> (s: String)
    ensures
        s@ == pretty_object(entries_view(entries@)),
{
    let ghost ev = entries_view(entries@);
    let n = entries.len();
    let mut out: Vec<char> = Vec::new();
    if n == 0 {
        out.push('{');
        out.push('}');
        proof {
            assert(out@ =~= pretty_object(ev));
        }
        return chars_to_string(&out);
    }
    out.push('{');
    out.push('\n');
    out.push(' ');
    out.push(' ');
    let mut i: usize = 0;
    proof {
        assert(out@ =~= seq!['{', '\n', ' ', ' ']);
    }
    while i < n
        invariant
            i <= n,
            n == entries@.len(),
            ev == entries_view(entries@),
            out@ + pretty_entries_from(ev, i as int) == seq!['{', '\n', ' ', ' ']
                + pretty_entries_from(ev, 0),
        decreases n - i,
    {
        let ghost pre = out@;
        if i > 0 {
            out.push(',');
            out.push('\n');
            out.push(' ');
            out.push(' ');
        }
        quote_into(&mut out, entries[i].0.as_str());
        out.push(':');
        out.push(' ');
        match &entries[i].1 {
            BodyValue::Text(t) => quote_into(&mut out, t.as_str()),
            BodyValue::Json { compact, pretty } => push_str_chars(&mut out, pretty.as_str()),
        }
        proof {
            assert(ev[i as int] == (entries@[i as int].0@, entries@[i as int].1@));
            assert(out@ =~= pre + ((if i > 0 {
                seq![',', '\n', ' ', ' ']
            } else {
                Seq::<char>::empty()
            }) + json_quote(ev[i as int].0) + seq![':', ' '] + pretty_value(ev[i as int].1)));
            assert(pre + pretty_entries_from(ev, i as int) =~= out@ + pretty_entries_from(
                ev,
                i + 1,
            ));
        }
        i += 1;
    }
    out.push('\n');
    out.push('}');
    proof {
        assert(pretty_entries_from(ev, n as int) =~= Seq::<char>::empty());
        assert(out@ =~= pretty_object(ev));
    }
    chars_to_string(&out)
}

/// The entries as plain string pairs, for form encoding; every entry
/// must be a plain field.
fn to_form_pairs(entries: &Vec<(String, BodyValue)>) -> (ps: Vec<(String, String)>)
    requires
        forall|p: int|
            0 <= p < entries_view(entries@).len() ==> (#[trigger] entries_view(
                entries@,
            )[p].1) is Text,
    ensures
        pairs_view(ps@) == text_pairs(entries_view(entries@)),
{
    let ghost ev = entries_view(entries@);
    let n = entries.len();
    let mut ps: Vec<(String, String)> = Vec::new();
    let mut i: usize = 0;
    while i < n
        invariant
            i <= n,
            n == entries@.len(),
            ev == entries_view(entries@),
            ps@.len() == i,
            forall|p: int| 0 <= p < ev.len() ==> (#[trigger] ev[p].1) is Text,
            forall|p: int|
                0 <= p < i ==> #[trigger] pairs_view(ps@)[p] == text_pairs(ev)[p],
        decreases n - i,
    {
        let ghost pre_ps = ps@;
        match &entries[i].1 {
            BodyValue::Text(t) => {
                ps.push((entries[i].0.clone(), t.clone()));
                proof {
                    assert(ev[i as int] == (entries@[i as int].0@, entries@[i as int].1@));
                    assert(text_pairs(ev)[i as int] == (ev[i as int].0, t@));
                    assert(pairs_view(ps@)[i as int] == (entries@[i as int].0@, t@));
                    assert forall|p: int| 0 <= p <= i as int implies #[trigger] pairs_view(
                        ps@,
                    )[p] == text_pairs(ev)[p] by {
                        if p < i as int {
                            assert(ps@[p] == pre_ps[p]);
                            assert(pairs_view(pre_ps)[p] == text_pairs(ev)[p]);
                        }
                    }
                }
            },
            BodyValue::Json { compact, pretty } => {
                proof {
                    assert(ev[i as int].1 is Json);
                    assert(false);
                }
                ps.push((entries[i].0.clone(), String::new()));
            },
        }
        i += 1;
    }
    proof {
        assert(pairs_view(ps@) =~= text_pairs(ev));
    }
    ps
}

/// A found key index is in range and points at the key.
proof fn lemma_key_index_bounds(es: Seq<(Seq<char>, BodyValueModel)>, k: Seq<char>, j: int)
    ensures
        key_index_from(es, k, j) == -1 || (j <= key_index_from(es, k, j) < es.len() && es[
            key_index_from(es, k, j)
        ].0 == k),
    decreases es.len() - j,
{
    if j < 0 || j >= es.len() {
    } else if es[j].0 == k {
    } else {
        lemma_key_index_bounds(es, k, j + 1);
    }
}

/// Writing a plain field keeps every entry plain.
proof fn lemma_upsert_all_text(
    es: Seq<(Seq<char>, BodyValueModel)>,
    k: Seq<char>,
    v: BodyValueModel,
)
    requires
        forall|p: int| 0 <= p < es.len() ==> (#[trigger] es[p].1) is Text,
        v is Text,
    ensures
        forall|p: int|
            0 <= p < upsert(es, k, v).len() ==> (#[trigger] upsert(es, k, v)[p].1) is Text,
{
    let r = upsert(es, k, v);
    let ki = key_index_from(es, k, 0);
    lemma_key_index_bounds(es, k, 0);
    assert forall|p: int| 0 <= p < r.len() implies (#[trigger] r[p].1) is Text by {
        if ki < 0 {
            if p < es.len() {
                assert(es[p].1 is Text);
            }
        } else {
            if p != ki {
                assert(es[p].1 is Text);
            }
        }
    }
}

/// What assembly yields: the URL must parse (checked first), then the
/// body fold must run through every item without a fatal step; the
/// descriptor carries the method, the URL with the query applied, the
/// headers in input order, and the encoded body.
pub open spec fn assemble_spec(
    items: Seq<RequestItemModel>,
    contents: Seq<Option<Seq<char>>>,
    method: Seq<char>,
    base: Seq<char>,
    bt0: BodyType,
) -> Result<RequestDescriptorModel, AssembleErrorModel> {
    match url_with_query(base, query_pairs(items)) {
        Option::None => Err(AssembleErrorModel::UrlParse),
        Option::Some(u) => match body_fold(
            items,
            contents,
            0,
            BodyState { bt: bt0, entries: Seq::empty() },
        ) {
            Err(e) => Err(e),
            Ok(st) => Ok(
                RequestDescriptorModel {
                    method,
                    url: u,
                    headers: header_pairs(items),
                    body: final_body(st),
                    payload: final_payload(st),
                },
            ),
        },
    }
}

/// Assembles the full request from the classified items, per
/// [`assemble_spec`]: query parameters are appended to the base URL in
/// input order (duplicates kept), headers are collected in input order,
/// and the remaining items build the body under the body-type state
/// machine.
///
/// A file-sourced item's value names a file; the caller reads it and
/// hands its text over in `file_contents` at the item's index (`None`
/// for every other item), aborting on any read failure before assembly —
/// see [`needs_file_contents`]. The body-type override must be `JSON`,
/// `Form` or `Undecided`.
pub fn assemble_request(
    method: String,
    url: &str,
    items: &Vec<RequestItem>,
    file_contents: &Vec<Option<String>>,
    body_type: BodyType,
) -> (r: Result<RequestDescriptor, AssembleError>)
    requires
        file_contents@.len() == items@.len(),
        forall|p: int|
            0 <= p < items@.len() ==> (is_file_variant((#[trigger] items@[p])@.variant)
                <==> file_contents@[p] is Some),
        body_type != BodyType::Multipart,
    ensures
        r is Ok <==> assemble_spec(
            items_view(items@),
            contents_view(file_contents@),
            method@,
            url@,
            body_type,
        ) is Ok,
        r is Ok ==> (r->Ok_0)@ == assemble_spec(
            items_view(items@),
            contents_view(file_contents@),
            method@,
            url@,
            body_type,
        )->Ok_0,
        r is Err ==> (r->Err_0)@ == assemble_spec(
            items_view(items@),
            contents_view(file_contents@),
            method@,
            url@,
            body_type,
        )->Err_0,
{
    let ghost iv = items_view(items@);
    let ghost cv = contents_view(file_contents@);

    let qp = gather_query_pairs(items);
    let built_url = match build_url(url, &qp) {
        Ok(u) => u,
        Err(_) => {
            return Err(AssembleError::UrlParse);
        },
    };
    let headers = gather_header_pairs(items);

    let mut bt = body_type;
    let mut entries: Vec<(String, BodyValue)> = Vec::new();
    let n = items.len();
    let mut i: usize = 0;
    proof {
        assert(entries_view(entries@) =~= Seq::<(Seq<char>, BodyValueModel)>::empty());
    }
    while i < n
        invariant
            i <= n,
            n == items@.len(),
            file_contents@.len() == items@.len(),
            iv == items_view(items@),
            cv == contents_view(file_contents@),
            forall|p: int|
                0 <= p < items@.len() ==> (is_file_variant((#[trigger] items@[p])@.variant)
                    <==> file_contents@[p] is Some),
            url_with_query(url@, query_pairs(iv)) is Some,
            built_url@ == url_with_query(url@, query_pairs(iv)).unwrap(),
            body_fold(iv, cv, 0, BodyState { bt: body_type, entries: Seq::empty() }) == body_fold(
                iv,
                cv,
                i as int,
                BodyState { bt: bt, entries: entries_view(entries@) },
            ),
            bt != BodyType::Multipart,
            bt != BodyType::JSON ==> forall|p: int|
                0 <= p < entries_view(entries@).len() ==> (#[trigger] entries_view(
                    entries@,
                )[p].1) is Text,
        decreases n - i,
    {
        let ghost st_pre = BodyState { bt: bt, entries: entries_view(entries@) };
        let it = &items[i];
        proof {
            assert(iv[i as int] == items@[i as int]@);
            assert(cv[i as int] == (match file_contents@[i as int] {
                Option::Some(s) => Option::Some(s@),
                Option::None => Option::<Seq<char>>::None,
            }));
        }
        match it.variant {
            RequestItemType::HTTPHeader => {
                proof {
                    assert(body_step(st_pre, iv[i as int], cv[i as int]) == Ok::<
                        BodyState,
                        AssembleErrorModel,
                    >(st_pre));
                }
            },
            RequestItemType::URLParameter => {
                proof {
                    assert(body_step(st_pre, iv[i as int], cv[i as int]) == Ok::<
                        BodyState,
                        AssembleErrorModel,
                    >(st_pre));
                }
            },
            RequestItemType::DataField => {
                upsert_exec(&mut entries, it.key.clone(), BodyValue::Text(it.value.clone()));
                proof {
                    if bt != BodyType::JSON {
                        lemma_upsert_all_text(
                            st_pre.entries,
                            iv[i as int].key,
                            BodyValueModel::Text(iv[i as int].value),
                        );
                    }
                    assert(body_step(st_pre, iv[i as int], cv[i as int]) == Ok::<
                        BodyState,
                        AssembleErrorModel,
                    >(BodyState { bt: bt, entries: entries_view(entries@) }));
                }
            },
            RequestItemType::FileDataField => {
                match &file_contents[i] {
                    Some(text) => {
                        upsert_exec(&mut entries, it.key.clone(), BodyValue::Text(text.clone()));
                        proof {
                            assert(cv[i as int].unwrap() == text@);
                            if bt != BodyType::JSON {
                                lemma_upsert_all_text(
                                    st_pre.entries,
                                    iv[i as int].key,
                                    BodyValueModel::Text(text@),
                                );
                            }
                            assert(body_step(st_pre, iv[i as int], cv[i as int]) == Ok::<
                                BodyState,
                                AssembleErrorModel,
                            >(BodyState { bt: bt, entries: entries_view(entries@) }));
                        }
                    },
                    None => {
                        proof {
                            assert(is_file_variant(items@[i as int]@.variant));
                            assert(false);
                        }
                    },
                }
            },
            RequestItemType::JsonData => {
                if !(bt == BodyType::Undecided || bt == BodyType::JSON) {
                    proof {
                        assert(body_step(st_pre, iv[i as int], cv[i as int]) == Err::<
                            BodyState,
                            AssembleErrorModel,
                        >(AssembleErrorModel::BodyTypeConflict { key: iv[i as int].key }));
                    }
                    return Err(AssembleError::BodyTypeConflict { key: it.key.clone() });
                }
                match json_reformat_compact(it.value.as_str()) {
                    None => {
                        proof {
                            assert(body_step(st_pre, iv[i as int], cv[i as int]) == Err::<
                                BodyState,
                                AssembleErrorModel,
                            >(AssembleErrorModel::JsonSyntax { key: iv[i as int].key }));
                        }
                        return Err(AssembleError::JsonSyntax { key: it.key.clone() });
                    },
                    Some(compact) => {
                        let pretty_raw = match json_reformat_pretty(it.value.as_str()) {
                            Some(p) => p,
                            None => {
                                proof {
                                    assert(false);
                                }
                                String::new()
                            },
                        };
                        let pretty = indent_string(pretty_raw.as_str());
                        bt = BodyType::JSON;
                        upsert_exec(
                            &mut entries,
                            it.key.clone(),
                            BodyValue::Json { compact, pretty },
                        );
                        proof {
                            assert(body_step(st_pre, iv[i as int], cv[i as int]) == Ok::<
                                BodyState,
                                AssembleErrorModel,
                            >(BodyState { bt: bt, entries: entries_view(entries@) }));
                        }
                    },
                }
            },
            RequestItemType::FileJsonData => {
                match &file_contents[i] {
                    Some(text) => {
                        proof {
                            assert(cv[i as int].unwrap() == text@);
                        }
                        if !(bt == BodyType::Undecided || bt == BodyType::JSON) {
                            proof {
                                assert(body_step(st_pre, iv[i as int], cv[i as int]) == Err::<
                                    BodyState,
                                    AssembleErrorModel,
                                >(AssembleErrorModel::BodyTypeConflict { key: iv[i as int].key }));
                            }
                            return Err(AssembleError::BodyTypeConflict { key: it.key.clone() });
                        }
                        match json_reformat_compact(text.as_str()) {
                            None => {
                                proof {
                                    assert(body_step(st_pre, iv[i as int], cv[i as int]) == Err::<
                                        BodyState,
                                        AssembleErrorModel,
                                    >(AssembleErrorModel::JsonSyntax { key: iv[i as int].key }));
                                }
                                return Err(AssembleError::JsonSyntax { key: it.key.clone() });
                            },
                            Some(compact) => {
                                let pretty_raw = match json_reformat_pretty(text.as_str()) {
                                    Some(p) => p,
                                    None => {
                                        proof {
                                            assert(false);
                                        }
                                        String::new()
                                    },
                                };
                                let pretty = indent_string(pretty_raw.as_str());
                                bt = BodyType::JSON;
                                upsert_exec(
                                    &mut entries,
                                    it.key.clone(),
                                    BodyValue::Json { compact, pretty },
                                );
                                proof {
                                    assert(body_step(st_pre, iv[i as int], cv[i as int]) == Ok::<
                                        BodyState,
                                        AssembleErrorModel,
                                    >(BodyState { bt: bt, entries: entries_view(entries@) }));
                                }
                            },
                        }
                    },
                    None => {
                        proof {
                            assert(is_file_variant(items@[i as int]@.variant));
                            assert(false);
                        }
                    },
                }
            },
            RequestItemType::FormFile => {
                if bt == BodyType::JSON {
                    proof {
                        assert(body_step(st_pre, iv[i as int], cv[i as int]) == Err::<
                            BodyState,
                            AssembleErrorModel,
                        >(AssembleErrorModel::BodyTypeConflict { key: iv[i as int].key }));
                    }
                    return Err(AssembleError::BodyTypeConflict { key: it.key.clone() });
                }
                proof {
                    assert(body_step(st_pre, iv[i as int], cv[i as int]) == Err::<
                        BodyState,
                        AssembleErrorModel,
                    >(AssembleErrorModel::NotImplemented { key: iv[i as int].key }));
                }
                return Err(AssembleError::NotImplemented { key: it.key.clone() });
            },
        }
        proof {
            assert(body_fold(iv, cv, i as int, st_pre) == body_fold(
                iv,
                cv,
                i + 1,
                BodyState { bt: bt, entries: entries_view(entries@) },
            ));
        }
        i += 1;
    }
    let ghost st_fin = BodyState { bt: bt, entries: entries_view(entries@) };
    proof {
        assert(body_fold(iv, cv, n as int, st_fin) == Ok::<BodyState, AssembleErrorModel>(st_fin));
    }
    let built: (Body, String) = if bt == BodyType::Form {
        let pairs = to_form_pairs(&entries);
        let enc = form_encode(&pairs);
        let wire = enc.clone();
        (Body::Form(enc), wire)
    } else if bt == BodyType::JSON {
        (Body::Json(encode_pretty(&entries)), encode_compact(&entries))
    } else {
        proof {
            assert(bt == BodyType::Undecided);
        }
        if entries.len() == 0 {
            proof {
                assert(entries_view(entries@) =~= Seq::<(Seq<char>, BodyValueModel)>::empty());
            }
            (Body::Empty, String::new())
        } else {
            (Body::Json(encode_pretty(&entries)), encode_compact(&entries))
        }
    };
    let (body, payload) = built;
    let desc = RequestDescriptor { method, url: built_url, headers, body, payload };
    Ok(desc)
}

} // verus!

//! The request-item micro-language: a raw command-line token such as
//! `name=bob`, `X-Test:1` or `payload:=@body.json` is split into a key, a
//! value and a variant that says which HTTP construct the item stands for.
//!
//! The split happens in three steps: the tokenizer turns the raw string
//! into literal and escaped segments; the separator resolver finds the
//! leftmost separator occurrence in the literal segments, preferring the
//! longest separator at each position; the classifier maps the separator
//! to its variant and packages the `(key, value, variant)` triple.

use vstd::prelude::*;

verus! {

/// Semantic classification of a request item, one per recognized separator.
#[derive(Clone, Copy, Debug, PartialEq, Eq, Structural)]
pub enum RequestItemType {
    HTTPHeader,
    URLParameter,
    DataField,
    JsonData,
    FormFile,
    FileDataField,
    FileJsonData,
}

/// One contribution to an HTTP request: a key, a value, and the variant
/// that fixes how the value is interpreted.
#[derive(Clone, Debug)]
pub struct RequestItem {
    pub key: String,
    pub value: String,
    pub variant: RequestItemType,
}

/// Mathematical model of a [`RequestItem`]: both strings as character
/// sequences, plus the variant.
pub ghost struct RequestItemModel {
    pub key: Seq<char>,
    pub value: Seq<char>,
    pub variant: RequestItemType,
}

impl View for RequestItem {
    type V = RequestItemModel;

    open spec fn view(&self) -> RequestItemModel {
        RequestItemModel { key: self.key@, value: self.value@, variant: self.variant }
    }
}

/// A segment produced by the tokenizer: either a literal run, in which
/// separators may be recognized, or a single escaped character, which
/// never takes part in separator matching.
#[derive(Clone, Debug)]
pub enum TokenisedItem {
    Normal(String),
    Escaped(char),
}

/// Model of a tokenizer segment over character sequences.
pub ghost enum SegmentModel {
    Normal(Seq<char>),
    Escaped(char),
}

impl View for TokenisedItem {
    type V = SegmentModel;

    open spec fn view(&self) -> SegmentModel {
        match self {
            TokenisedItem::Normal(s) => SegmentModel::Normal(s@),
            TokenisedItem::Escaped(c) => SegmentModel::Escaped(*c),
        }
    }
}

/// The characters a backslash can escape: the first character of any
/// separator, and the backslash itself.
pub open spec fn special_char(c: char) -> bool {
    c == ':' || c == '=' || c == '@' || c == '\\'
}

/// One pass of the tokenizer's two-state machine (`pending` is true right
/// after an unconsumed backslash), consuming `s` from index `i` with the
/// current literal run `cur` and the segments emitted so far in `out`.
///
/// A backslash before a special character removes the backslash and emits
/// the character as its own `Escaped` segment; a backslash before any
/// other character is kept literally; a trailing backslash is dropped.
/// The final literal run is emitted even when it is empty.
pub open spec fn tokenize_from(
    s: Seq<char>,
    i: int,
    cur: Seq<char>,
    pending: bool,
    out: Seq<SegmentModel>,
) -> Seq<SegmentModel>
    decreases s.len() - i,
{
    if i < 0 || i >= s.len() {
        out.push(SegmentModel::Normal(cur))
    } else {
        let c = s[i];
        if pending {
            if special_char(c) {
                tokenize_from(
                    s,
                    i + 1,
                    Seq::empty(),
                    false,
                    out.push(SegmentModel::Normal(cur)).push(SegmentModel::Escaped(c)),
                )
            } else {
                tokenize_from(s, i + 1, cur.push('\\').push(c), false, out)
            }
        } else if c == '\\' {
            tokenize_from(s, i + 1, cur, true, out)
        } else {
            tokenize_from(s, i + 1, cur.push(c), false, out)
        }
    }
}

/// The segment sequence the tokenizer produces for a raw string.
pub open spec fn tokenize_spec(s: Seq<char>) -> Seq<SegmentModel> {
    tokenize_from(s, 0, Seq::empty(), false, Seq::empty())
}

/// Collects the characters of a string into a vector, one entry per char.
pub(crate) fn str_to_chars(s: &str) -> (v: Vec<char>)
    ensures
        v@ == s@,
{
    let n = s.unicode_len();
    let mut v: Vec<char> = Vec::new();
    let mut i: usize = 0;
    while i < n
        invariant
            n == s@.len(),
            i <= n,
            v@ == s@.subrange(0, i as int),
        decreases n - i,
    {
        v.push(s.get_char(i));
        i += 1;
        proof {
            assert(v@ =~= s@.subrange(0, i as int));
        }
    }
    proof {
        assert(v@ =~= s@);
    }
    v
}

/// Relies on `String`'s `FromIterator<char>` impl: collecting characters
/// yields the string whose characters are exactly those of `v`, in order.
#[verifier::external_body]
pub(crate) fn chars_to_string(v: &Vec<char>) -> (s: String)
    ensures
        s@ == v@,
{
    v.iter().collect()
}

/// The segment models of a sequence of tokenizer segments.
pub open spec fn segments_view(ts: Seq<TokenisedItem>) -> Seq<SegmentModel> {
    ts.map_values(|t: TokenisedItem| t@)
}

/// Splits a raw string into literal and escaped segments, per
/// [`tokenize_spec`].
pub fn tokenize(string: &str) -> (tokens: Vec<TokenisedItem>)
    ensures
        segments_view(tokens@) == tokenize_spec(string@),
{
    let chars = str_to_chars(string);
    let n = chars.len();
    let mut tokens: Vec<TokenisedItem> = Vec::new();
    let mut current: Vec<char> = Vec::new();
    let mut escaped = false;
    let mut i: usize = 0;
    proof {
        assert(segments_view(tokens@) =~= Seq::<SegmentModel>::empty());
    }
    while i < n
        invariant
            n == chars@.len(),
            chars@ == string@,
            i <= n,
            tokenize_spec(string@) == tokenize_from(
                string@,
                i as int,
                current@,
                escaped,
                segments_view(tokens@),
            ),
        decreases n - i,
    {
        let c = chars[i];
        if escaped {
            if c == ':' || c == '=' || c == '@' || c == '\\' {
                let ghost pre = segments_view(tokens@);
                let ghost run = current@;
                let flushed = chars_to_string(&current);
                tokens.push(TokenisedItem::Normal(flushed));
                tokens.push(TokenisedItem::Escaped(c));
                current = Vec::new();
                proof {
                    assert(segments_view(tokens@) =~= pre.push(
                        SegmentModel::Normal(run),
                    ).push(SegmentModel::Escaped(c)));
                    assert(current@ =~= Seq::<char>::empty());
                }
            } else {
                current.push('\\');
                current.push(c);
            }
            escaped = false;
        } else if c == '\\' {
            escaped = true;
        } else {
            current.push(c);
        }
        i += 1;
    }
    let ghost pre = segments_view(tokens@);
    let ghost run = current@;
    let last = chars_to_string(&current);
    tokens.push(TokenisedItem::Normal(last));
    proof {
        assert(segments_view(tokens@) =~= pre.push(SegmentModel::Normal(run)));
    }
    tokens
}

/// The separator table, in descending length order so that at any scan
/// position the longest separator is preferred (`:=@` over `:=` over `:`).
pub open spec fn separator_table() -> Seq<(Seq<char>, RequestItemType)> {
    seq![
        (seq![':', '=', '@'], RequestItemType::FileJsonData),
        (seq![':', '='], RequestItemType::JsonData),
        (seq!['=', '@'], RequestItemType::FileDataField),
        (seq!['=', '='], RequestItemType::URLParameter),
        (seq!['@'], RequestItemType::FormFile),
        (seq!['='], RequestItemType::DataField),
        (seq![':'], RequestItemType::HTTPHeader),
    ]
}

/// True when `pat` occurs in `s` starting at index `pos`.
pub open spec fn matches_at(s: Seq<char>, pos: int, pat: Seq<char>) -> bool {
    0 <= pos && pos + pat.len() <= s.len() && s.subrange(pos, pos + pat.len()) == pat
}

/// The first table entry, from index `k` on, whose separator occurs at
/// `pos`; the table's order makes this the longest match at `pos`.
pub open spec fn table_match_from(s: Seq<char>, pos: int, k: int) -> Option<int>
    decreases separator_table().len() - k,
{
    if k < 0 || k >= separator_table().len() {
        None
    } else if matches_at(s, pos, separator_table()[k].0) {
        Some(k)
    } else {
        table_match_from(s, pos, k + 1)
    }
}

/// The longest separator occurring at position `pos`, as a table index.
pub open spec fn separator_match_at(s: Seq<char>, pos: int) -> Option<int> {
    table_match_from(s, pos, 0)
}

/// The leftmost position, at or after `pos`, where a separator occurs,
/// together with the table index of the longest separator there.
pub open spec fn find_separator_from(s: Seq<char>, pos: int) -> Option<(int, int)>
    decreases s.len() - pos,
{
    if pos < 0 || pos >= s.len() {
        None
    } else {
        match separator_match_at(s, pos) {
            Some(k) => Some((pos, k)),
            None => find_separator_from(s, pos + 1),
        }
    }
}

/// The leftmost separator occurrence in `s`, longest first at each
/// position.
pub open spec fn find_separator(s: Seq<char>) -> Option<(int, int)> {
    find_separator_from(s, 0)
}

/// The longest separator at `pos`, as an index into the separator table.
fn separator_match_at_exec(t: &Vec<char>, pos: usize) -> (r: Option<usize>)
    requires
        pos < t@.len(),
    ensures
        match r {
            Some(k) => separator_match_at(t@, pos as int) == Some(k as int) && k < 7
                && matches_at(t@, pos as int, separator_table()[k as int].0),
            None => separator_match_at(t@, pos as int) is None,
        },
{
    let n = t.len();
    let rest = n - pos;
    if rest >= 3 && t[pos] == ':' && t[pos + 1] == '=' && t[pos + 2] == '@' {
        proof {
            assert(t@.subrange(pos as int, pos + 3) =~= separator_table()[0].0);
        }
        proof { reveal_with_fuel(table_match_from, 9); }
        return Some(0);
    }
    proof {
        assert(!matches_at(t@, pos as int, separator_table()[0].0)) by {
            if matches_at(t@, pos as int, separator_table()[0].0) {
                assert(t@.subrange(pos as int, pos + 3)[0] == t@[pos as int]);
                assert(t@.subrange(pos as int, pos + 3)[1] == t@[pos + 1]);
                assert(t@.subrange(pos as int, pos + 3)[2] == t@[pos + 2]);
            }
        }
    }
    if rest >= 2 && t[pos] == ':' && t[pos + 1] == '=' {
        proof {
            assert(t@.subrange(pos as int, pos + 2) =~= separator_table()[1].0);
        }
        proof { reveal_with_fuel(table_match_from, 9); }
        return Some(1);
    }
    proof {
        assert(!matches_at(t@, pos as int, separator_table()[1].0)) by {
            if matches_at(t@, pos as int, separator_table()[1].0) {
                assert(t@.subrange(pos as int, pos + 2)[0] == t@[pos as int]);
                assert(t@.subrange(pos as int, pos + 2)[1] == t@[pos + 1]);
            }
        }
    }
    if rest >= 2 && t[pos] == '=' && t[pos + 1] == '@' {
        proof {
            assert(t@.subrange(pos as int, pos + 2) =~= separator_table()[2].0);
        }
        proof { reveal_with_fuel(table_match_from, 9); }
        return Some(2);
    }
    proof {
        assert(!matches_at(t@, pos as int, separator_table()[2].0)) by {
            if matches_at(t@, pos as int, separator_table()[2].0) {
                assert(t@.subrange(pos as int, pos + 2)[0] == t@[pos as int]);
                assert(t@.subrange(pos as int, pos + 2)[1] == t@[pos + 1]);
            }
        }
    }
    if rest >= 2 && t[pos] == '=' && t[pos + 1] == '=' {
        proof {
            assert(t@.subrange(pos as int, pos + 2) =~= separator_table()[3].0);
        }
        proof { reveal_with_fuel(table_match_from, 9); }
        return Some(3);
    }
    proof {
        assert(!matches_at(t@, pos as int, separator_table()[3].0)) by {
            if matches_at(t@, pos as int, separator_table()[3].0) {
                assert(t@.subrange(pos as int, pos + 2)[0] == t@[pos as int]);
                assert(t@.subrange(pos as int, pos + 2)[1] == t@[pos + 1]);
            }
        }
    }
    if t[pos] == '@' {
        proof {
            assert(t@.subrange(pos as int, pos + 1) =~= separator_table()[4].0);
        }
        proof { reveal_with_fuel(table_match_from, 9); }
        return Some(4);
    }
    proof {
        assert(!matches_at(t@, pos as int, separator_table()[4].0)) by {
            if matches_at(t@, pos as int, separator_table()[4].0) {
                assert(t@.subrange(pos as int, pos + 1)[0] == t@[pos as int]);
            }
        }
    }
    if t[pos] == '=' {
        proof {
            assert(t@.subrange(pos as int, pos + 1) =~= separator_table()[5].0);
        }
        proof { reveal_with_fuel(table_match_from, 9); }
        return Some(5);
    }
    proof {
        assert(!matches_at(t@, pos as int, separator_table()[5].0)) by {
            if matches_at(t@, pos as int, separator_table()[5].0) {
                assert(t@.subrange(pos as int, pos + 1)[0] == t@[pos as int]);
            }
        }
    }
    if t[pos] == ':' {
        proof {
            assert(t@.subrange(pos as int, pos + 1) =~= separator_table()[6].0);
        }
        proof { reveal_with_fuel(table_match_from, 9); }
        return Some(6);
    }
    proof {
        assert(!matches_at(t@, pos as int, separator_table()[6].0)) by {
            if matches_at(t@, pos as int, separator_table()[6].0) {
                assert(t@.subrange(pos as int, pos + 1)[0] == t@[pos as int]);
            }
        }
    }
    proof {
        reveal_with_fuel(table_match_from, 9);
    }
    None
}

/// The leftmost separator occurrence in `t`, with the facts callers need
/// about the match it reports.
fn find_separator_exec(t: &Vec<char>) -> (r: Option<(usize, usize)>)
    ensures
        match r {
            Some(pk) => find_separator(t@) == Some((pk.0 as int, pk.1 as int)) && pk.1 < 7
                && matches_at(t@, pk.0 as int, separator_table()[pk.1 as int].0)
                && pk.0 + separator_table()[pk.1 as int].0.len() <= t@.len(),
            None => find_separator(t@) is None,
        },
{
    let n = t.len();
    let mut pos: usize = 0;
    while pos < n
        invariant
            n == t@.len(),
            pos <= n,
            find_separator(t@) == find_separator_from(t@, pos as int),
        decreases n - pos,
    {
        match separator_match_at_exec(t, pos) {
            Some(k) => {
                return Some((pos, k));
            },
            None => {
                pos += 1;
            },
        }
    }
    None
}

/// The concatenated literal content of the segments from index `i` on:
/// the text of a `Normal` segment, the single character of an `Escaped`
/// one.
pub open spec fn tail_content(segs: Seq<SegmentModel>, i: int) -> Seq<char>
    decreases segs.len() - i,
{
    if i < 0 || i >= segs.len() {
        Seq::empty()
    } else {
        (match segs[i] {
            SegmentModel::Normal(t) => t,
            SegmentModel::Escaped(c) => seq![c],
        }) + tail_content(segs, i + 1)
    }
}

/// Resolution of the separator over a segment sequence, from segment `i`
/// on, with `key` the literal content already collected: the first
/// separator occurrence in a `Normal` segment splits key from value;
/// escaped characters never take part in the search. The result is the
/// key, the value, and the separator's table index; `None` when no
/// `Normal` segment holds a separator.
pub open spec fn classify_from(segs: Seq<SegmentModel>, i: int, key: Seq<char>) -> Option<
    (Seq<char>, Seq<char>, int),
>
    decreases segs.len() - i,
{
    if i < 0 || i >= segs.len() {
        None
    } else {
        match segs[i] {
            SegmentModel::Escaped(c) => classify_from(segs, i + 1, key.push(c)),
            SegmentModel::Normal(t) => match find_separator(t) {
                None => classify_from(segs, i + 1, key + t),
                Some(pk) => Some(
                    (
                        key + t.subrange(0, pk.0),
                        t.subrange(pk.0 + separator_table()[pk.1].0.len(), t.len() as int)
                            + tail_content(segs, i + 1),
                        pk.1,
                    ),
                ),
            },
        }
    }
}

/// What classification yields for a raw string: the key and value around
/// the leftmost (longest-preferred) unescaped separator, and the variant
/// the separator table assigns to that separator; `None` when the string
/// holds no unescaped separator.
pub open spec fn classify_spec(s: Seq<char>) -> Option<RequestItemModel> {
    match classify_from(tokenize_spec(s), 0, Seq::empty()) {
        None => None,
        Some(kvi) => Some(
            RequestItemModel {
                key: kvi.0,
                value: kvi.1,
                variant: separator_table()[kvi.2].1,
            },
        ),
    }
}

/// Appends `src[from..to]` to `dst`.
fn append_range(dst: &mut Vec<char>, src: &Vec<char>, from: usize, to: usize)
    requires
        from <= to <= src@.len(),
    ensures
        final(dst)@ == old(dst)@ + src@.subrange(from as int, to as int),
{
    let mut i = from;
    while i < to
        invariant
            from <= i <= to <= src@.len(),
            dst@ == old(dst)@ + src@.subrange(from as int, i as int),
        decreases to - i,
    {
        dst.push(src[i]);
        i += 1;
        proof {
            assert(dst@ =~= old(dst)@ + src@.subrange(from as int, i as int));
        }
    }
}

/// The length, in characters, of the separator at table index `k`.
fn separator_len_exec(k: usize) -> (n: usize)
    requires
        k < 7,
    ensures
        n == separator_table()[k as int].0.len(),
{
    if k == 0 {
        3
    } else if k <= 3 {
        2
    } else {
        1
    }
}

/// The variant the separator table assigns to table index `k`.
fn variant_of(k: usize) -> (v: RequestItemType)
    requires
        k < 7,
    ensures
        v == separator_table()[k as int].1,
{
    if k == 0 {
        RequestItemType::FileJsonData
    } else if k == 1 {
        RequestItemType::JsonData
    } else if k == 2 {
        RequestItemType::FileDataField
    } else if k == 3 {
        RequestItemType::URLParameter
    } else if k == 4 {
        RequestItemType::FormFile
    } else if k == 5 {
        RequestItemType::DataField
    } else {
        RequestItemType::HTTPHeader
    }
}

/// Classifies a raw string into a request item, per [`classify_spec`]:
/// tokenize, resolve the separator, and map it to its variant. Fails
/// exactly when the string holds no unescaped separator.
pub fn get_request_item(v: String) -> (r: Option<RequestItem>)
    ensures
        r is Some <==> classify_spec(v@) is Some,
        r is Some ==> r.unwrap()@ == classify_spec(v@).unwrap(),
{
    let tokens = tokenize(v.as_str());
    let ghost segs = segments_view(tokens@);
    let n = tokens.len();
    let mut key: Vec<char> = Vec::new();
    let mut value: Vec<char> = Vec::new();
    let mut found: Option<usize> = None;
    let mut j: usize = 0;
    while j < n
        invariant
            n == tokens@.len(),
            segs == segments_view(tokens@),
            segs == tokenize_spec(v@),
            j <= n,
            found is None ==> value@.len() == 0 && classify_from(segs, 0, Seq::empty())
                == classify_from(segs, j as int, key@),
            found matches Some(k) ==> k < 7 && classify_from(segs, 0, Seq::empty()) == Some(
                (key@, value@ + tail_content(segs, j as int), k as int),
            ),
        decreases n - j,
    {
        let ghost old_key = key@;
        let ghost old_value = value@;
        match found {
            None => {
                match &tokens[j] {
                    TokenisedItem::Escaped(c) => {
                        key.push(*c);
                        proof {
                            assert(key@ =~= old_key.push(segs[j as int]->Escaped_0));
                        }
                    },
                    TokenisedItem::Normal(t) => {
                        let tc = str_to_chars(t.as_str());
                        match find_separator_exec(&tc) {
                            None => {
                                let mut tcm = tc;
                                key.append(&mut tcm);
                            },
                            Some((pos, k)) => {
                                let sep_len = separator_len_exec(k);
                                proof {
                                    assert(pos + separator_table()[k as int].0.len()
                                        <= tc@.len());
                                }
                                append_range(&mut key, &tc, 0, pos);
                                let end = tc.len();
                                append_range(&mut value, &tc, pos + sep_len, end);
                                found = Some(k);
                                proof {
                                    let t_v = segs[j as int]->Normal_0;
                                    assert(old_value + t_v.subrange(
                                        pos + sep_len,
                                        t_v.len() as int,
                                    ) =~= t_v.subrange(pos + sep_len, t_v.len() as int));
                                    assert(value@ + tail_content(segs, j + 1) =~= t_v.subrange(
                                        pos + sep_len,
                                        t_v.len() as int,
                                    ) + tail_content(segs, j + 1));
                                }
                            },
                        }
                    },
                }
            },
            Some(_) => {
                match &tokens[j] {
                    TokenisedItem::Escaped(c) => {
                        value.push(*c);
                        proof {
                            let c_v = segs[j as int]->Escaped_0;
                            assert(value@ + tail_content(segs, j + 1) =~= old_value + (seq![c_v]
                                + tail_content(segs, j + 1)));
                        }
                    },
                    TokenisedItem::Normal(t) => {
                        let mut tc = str_to_chars(t.as_str());
                        value.append(&mut tc);
                        proof {
                            let t_v = segs[j as int]->Normal_0;
                            assert(value@ + tail_content(segs, j + 1) =~= old_value + (t_v
                                + tail_content(segs, j + 1)));
                        }
                    },
                }
            },
        }
        j += 1;
    }
    match found {
        None => None,
        Some(k) => {
            proof {
                assert(tail_content(segs, n as int) =~= Seq::<char>::empty());
                assert(value@ + tail_content(segs, n as int) =~= value@);
            }
            let variant = variant_of(k);
            let item = RequestItem {
                key: chars_to_string(&key),
                value: chars_to_string(&value),
                variant,
            };
            Some(item)
        },
    }
}

/// What a raw string reads as once escapes are resolved, from index `i`
/// with the escape flag `pending`: a backslash before a special
/// character disappears, one before any other character stays, and a
/// trailing backslash is dropped.
pub open spec fn unescape_from(s: Seq<char>, i: int, pending: bool) -> Seq<char>
    decreases s.len() - i,
{
    if i < 0 || i >= s.len() {
        Seq::empty()
    } else if pending {
        (if special_char(s[i]) {
            seq![s[i]]
        } else {
            seq!['\\', s[i]]
        }) + unescape_from(s, i + 1, false)
    } else if s[i] == '\\' {
        unescape_from(s, i + 1, true)
    } else {
        seq![s[i]] + unescape_from(s, i + 1, false)
    }
}

/// A raw string with escapes resolved.
pub open spec fn unescape(s: Seq<char>) -> Seq<char> {
    unescape_from(s, 0, false)
}

/// Appending a segment at the end appends its content at the end.
proof fn lemma_tail_content_push(segs: Seq<SegmentModel>, x: SegmentModel, i: int)
    requires
        0 <= i <= segs.len(),
    ensures
        tail_content(segs.push(x), i) == tail_content(segs, i) + (match x {
            SegmentModel::Normal(t) => t,
            SegmentModel::Escaped(c) => seq![c],
        }),
    decreases segs.len() - i,
{
    let content = (match x {
        SegmentModel::Normal(t) => t,
        SegmentModel::Escaped(c) => seq![c],
    });
    if i >= segs.len() {
        assert(segs.push(x)[i] == x);
        assert(tail_content(segs.push(x), i + 1) =~= Seq::<char>::empty());
        assert(tail_content(segs.push(x), i) =~= content);
        assert(tail_content(segs, i) + content =~= content);
    } else {
        lemma_tail_content_push(segs, x, i + 1);
        assert(segs.push(x)[i] == segs[i]);
        let head = (match segs[i] {
            SegmentModel::Normal(t) => t,
            SegmentModel::Escaped(c) => seq![c],
        });
        assert(tail_content(segs, i) + content =~= head + (tail_content(segs, i + 1) + content));
    }
}

/// The tokenizer's segments spell out exactly the unescaped raw string.
proof fn lemma_tokenize_content(s: Seq<char>, i: int, cur: Seq<char>, pending: bool, out: Seq<SegmentModel>)
    requires
        0 <= i <= s.len(),
        pending ==> 1 <= i,
    ensures
        tail_content(tokenize_from(s, i, cur, pending, out), 0) == tail_content(out, 0) + cur
            + unescape_from(s, i, pending),
    decreases s.len() - i,
{
    if i >= s.len() {
        lemma_tail_content_push(out, SegmentModel::Normal(cur), 0);
        assert(tail_content(out, 0) + cur + unescape_from(s, i, pending) =~= tail_content(out, 0)
            + cur);
    } else {
        let c = s[i];
        if pending {
            if special_char(c) {
                let out2 = out.push(SegmentModel::Normal(cur)).push(SegmentModel::Escaped(c));
                lemma_tokenize_content(s, i + 1, Seq::empty(), false, out2);
                lemma_tail_content_push(out, SegmentModel::Normal(cur), 0);
                lemma_tail_content_push(out.push(SegmentModel::Normal(cur)), SegmentModel::Escaped(c), 0);
                assert(tail_content(out2, 0) + Seq::<char>::empty() + unescape_from(s, i + 1, false)
                    =~= tail_content(out, 0) + cur + (seq![c] + unescape_from(s, i + 1, false)));
            } else {
                lemma_tokenize_content(s, i + 1, cur.push('\\').push(c), false, out);
                assert(tail_content(out, 0) + cur.push('\\').push(c) + unescape_from(s, i + 1, false)
                    =~= tail_content(out, 0) + cur + (seq!['\\', c] + unescape_from(
                    s,
                    i + 1,
                    false,
                )));
            }
        } else if c == '\\' {
            lemma_tokenize_content(s, i + 1, cur, true, out);
        } else {
            lemma_tokenize_content(s, i + 1, cur.push(c), false, out);
            assert(tail_content(out, 0) + cur.push(c) + unescape_from(s, i + 1, false)
                =~= tail_content(out, 0) + cur + (seq![c] + unescape_from(s, i + 1, false)));
        }
    }
}

/// The tokenizer loses nothing but the escape backslashes: concatenating
/// every segment's content, in order, reproduces the raw string with
/// backslashes before special characters removed and backslashes before
/// other characters kept.
pub proof fn lemma_tokenize_round_trip(s: Seq<char>)
    ensures
        tail_content(tokenize_spec(s), 0) == unescape(s),
{
    lemma_tokenize_content(s, 0, Seq::empty(), false, Seq::empty());
    assert(tail_content(Seq::<SegmentModel>::empty(), 0) =~= Seq::<char>::empty());
    assert(tail_content(Seq::<SegmentModel>::empty(), 0) + Seq::<char>::empty() + unescape_from(
        s,
        0,
        false,
    ) =~= unescape(s));
}

/// Whether some separator of the table occurs anywhere in `s`.
pub open spec fn contains_separator(s: Seq<char>) -> bool {
    exists|pos: int, k: int| 0 <= k < 7 && matches_at(s, pos, separator_table()[k].0)
}

/// `t` is a contiguous run of `s`.
pub open spec fn is_subrange_of(t: Seq<char>, s: Seq<char>) -> bool {
    exists|a: int| 0 <= a && a + t.len() <= s.len() && t == #[trigger] s.subrange(a, a + t.len())
}

/// Every `Normal` segment's content is a contiguous run of `s`.
pub open spec fn normals_subranges(segs: Seq<SegmentModel>, s: Seq<char>) -> bool {
    forall|j: int|
        0 <= j < segs.len() ==> ((#[trigger] segs[j]) is Normal ==> is_subrange_of(
            segs[j]->Normal_0,
            s,
        ))
}

/// A table match found from index `j` is a real occurrence.
proof fn lemma_table_match_occurrence(t: Seq<char>, pos: int, j: int)
    requires
        table_match_from(t, pos, j) is Some,
    ensures
        j <= table_match_from(t, pos, j).unwrap() < 7 && matches_at(
            t,
            pos,
            separator_table()[table_match_from(t, pos, j).unwrap()].0,
        ),
    decreases separator_table().len() - j,
{
    if j < 0 || j >= separator_table().len() {
    } else if matches_at(t, pos, separator_table()[j].0) {
    } else {
        lemma_table_match_occurrence(t, pos, j + 1);
    }
}

/// A separator found at or after `pos` is a real occurrence in `t`.
proof fn lemma_find_separator_occurrence(t: Seq<char>, pos: int)
    requires
        find_separator_from(t, pos) is Some,
    ensures
        contains_separator(t),
    decreases t.len() - pos,
{
    if pos < 0 || pos >= t.len() {
    } else {
        match separator_match_at(t, pos) {
            Some(k) => {
                lemma_table_match_occurrence(t, pos, 0);
            },
            None => {
                lemma_find_separator_occurrence(t, pos + 1);
            },
        }
    }
}

/// An occurrence inside a contiguous run of `s` is an occurrence in `s`.
proof fn lemma_matches_at_lift(s: Seq<char>, a: int, t: Seq<char>, pos: int, pat: Seq<char>)
    requires
        0 <= a,
        a + t.len() <= s.len(),
        t == s.subrange(a, a + t.len()),
        matches_at(t, pos, pat),
    ensures
        matches_at(s, a + pos, pat),
{
    assert(s.subrange(a + pos, a + pos + pat.len()) =~= t.subrange(pos, pos + pat.len()));
}

/// The tokenizer only ever emits `Normal` segments whose content is a
/// contiguous run of the raw string: escapes split runs, and a kept
/// backslash before a non-special character was contiguous in the raw
/// string too.
proof fn lemma_tokenize_subranges(s: Seq<char>, i: int, a: int, pending: bool, out: Seq<SegmentModel>)
    requires
        0 <= a,
        a <= i - (if pending { 1int } else { 0int }),
        i <= s.len(),
        pending ==> 1 <= i && s[i - 1] == '\\',
        normals_subranges(out, s),
    ensures
        normals_subranges(
            tokenize_from(
                s,
                i,
                s.subrange(a, i - (if pending { 1int } else { 0int })),
                pending,
                out,
            ),
            s,
        ),
    decreases s.len() - i,
{
    let cur = s.subrange(a, i - (if pending { 1int } else { 0int }));
    if i >= s.len() {
        let res = out.push(SegmentModel::Normal(cur));
        assert(is_subrange_of(cur, s)) by {
            assert(0 <= a && a + cur.len() <= s.len() && cur == s.subrange(a, a + cur.len()));
        }
        assert forall|j: int|
            0 <= j < res.len() implies ((#[trigger] res[j]) is Normal ==> is_subrange_of(
            res[j]->Normal_0,
            s,
        )) by {
            if j < out.len() {
                assert(out[j] == res[j]);
            }
        }
    } else {
        let c = s[i];
        if pending {
            if special_char(c) {
                let out2 = out.push(SegmentModel::Normal(cur)).push(SegmentModel::Escaped(c));
                assert(is_subrange_of(cur, s)) by {
                    assert(0 <= a && a + cur.len() <= s.len() && cur == s.subrange(
                        a,
                        a + cur.len(),
                    ));
                }
                assert(normals_subranges(out2, s)) by {
                    assert forall|j: int|
                        0 <= j < out2.len() implies ((#[trigger] out2[j]) is Normal
                        ==> is_subrange_of(out2[j]->Normal_0, s)) by {
                        if j < out.len() {
                            assert(out[j] == out2[j]);
                        }
                    }
                }
                assert(Seq::<char>::empty() =~= s.subrange(i + 1, i + 1));
                lemma_tokenize_subranges(s, i + 1, i + 1, false, out2);
            } else {
                assert(cur.push('\\').push(c) =~= s.subrange(a, i + 1));
                lemma_tokenize_subranges(s, i + 1, a, false, out);
            }
        } else if c == '\\' {
            lemma_tokenize_subranges(s, i + 1, a, true, out);
        } else {
            assert(cur.push(c) =~= s.subrange(a, i + 1));
            lemma_tokenize_subranges(s, i + 1, a, false, out);
        }
    }
}

/// When no `Normal` segment holds a separator, classification never
/// resolves one.
proof fn lemma_classify_none(segs: Seq<SegmentModel>, i: int, key: Seq<char>)
    requires
        forall|j: int|
            0 <= j < segs.len() ==> ((#[trigger] segs[j]) is Normal ==> find_separator(
                segs[j]->Normal_0,
            ) is None),
    ensures
        classify_from(segs, i, key) is None,
    decreases segs.len() - i,
{
    if i < 0 || i >= segs.len() {
    } else {
        match segs[i] {
            SegmentModel::Escaped(c) => {
                lemma_classify_none(segs, i + 1, key.push(c));
            },
            SegmentModel::Normal(t) => {
                lemma_classify_none(segs, i + 1, key + t);
            },
        }
    }
}

/// A raw string in which no separator occurs anywhere never classifies:
/// the tokenizer's `Normal` runs are contiguous runs of the raw string,
/// so no run can hold a separator either, and without a separator there
/// is no item.
pub proof fn lemma_no_separator_no_item(s: Seq<char>)
    requires
        !contains_separator(s),
    ensures
        classify_spec(s) is None,
{
    assert(Seq::<char>::empty() =~= s.subrange(0, 0));
    lemma_tokenize_subranges(s, 0, 0, false, Seq::empty());
    let segs = tokenize_spec(s);
    assert forall|j: int|
        0 <= j < segs.len() implies ((#[trigger] segs[j]) is Normal ==> find_separator(
        segs[j]->Normal_0,
    ) is None) by {
        if segs[j] is Normal {
            let t = segs[j]->Normal_0;
            assert(is_subrange_of(t, s));
            if find_separator(t) is Some {
                lemma_find_separator_occurrence(t, 0);
                let (pos, k) = choose|pos: int, k: int|
                    0 <= k < 7 && #[trigger] matches_at(t, pos, separator_table()[k].0);
                let a = choose|a: int|
                    0 <= a && a + t.len() <= s.len() && t == #[trigger] s.subrange(
                        a,
                        a + t.len(),
                    );
                lemma_matches_at_lift(s, a, t, pos, separator_table()[k].0);
                assert(contains_separator(s));
            }
        }
    }
    lemma_classify_none(segs, 0, Seq::empty());
}

/// No character of `s` is special: no separator character, no backslash.
pub open spec fn plain_text(s: Seq<char>) -> bool {
    forall|i: int| 0 <= i < s.len() ==> !special_char(#[trigger] s[i])
}

/// Without a backslash anywhere ahead, the tokenizer folds the rest of
/// the string into the current literal run.
proof fn lemma_tokenize_no_backslash(s: Seq<char>, i: int, cur: Seq<char>, out: Seq<SegmentModel>)
    requires
        0 <= i <= s.len(),
        forall|p: int| i <= p < s.len() ==> s[p] != '\\',
    ensures
        tokenize_from(s, i, cur, false, out) == out.push(
            SegmentModel::Normal(cur + s.subrange(i, s.len() as int)),
        ),
    decreases s.len() - i,
{
    if i >= s.len() {
        assert(cur + s.subrange(i, s.len() as int) =~= cur);
    } else {
        lemma_tokenize_no_backslash(s, i + 1, cur.push(s[i]), out);
        assert(cur.push(s[i]) + s.subrange(i + 1, s.len() as int) =~= cur + s.subrange(
            i,
            s.len() as int,
        ));
    }
}

/// A match pins each of the pattern's characters in place.
proof fn lemma_match_char(s: Seq<char>, pos: int, pat: Seq<char>, m: int)
    requires
        matches_at(s, pos, pat),
        0 <= m < pat.len(),
    ensures
        s[pos + m] == pat[m],
{
    assert(s.subrange(pos, pos + pat.len())[m] == s[pos + m]);
}

/// No separator matches at a non-special character.
proof fn lemma_no_match_at_plain_char(s: Seq<char>, pos: int)
    requires
        0 <= pos < s.len(),
        !special_char(s[pos]),
    ensures
        separator_match_at(s, pos) is None,
{
    if table_match_from(s, pos, 0) is Some {
        lemma_table_match_occurrence(s, pos, 0);
        let k = table_match_from(s, pos, 0).unwrap();
        lemma_match_char(s, pos, separator_table()[k].0, 0);
        if k == 0 {
            assert(separator_table()[0].0[0] == ':');
        } else if k == 1 {
            assert(separator_table()[1].0[0] == ':');
        } else if k == 2 {
            assert(separator_table()[2].0[0] == '=');
        } else if k == 3 {
            assert(separator_table()[3].0[0] == '=');
        } else if k == 4 {
            assert(separator_table()[4].0[0] == '@');
        } else if k == 5 {
            assert(separator_table()[5].0[0] == '=');
        } else {
            assert(separator_table()[6].0[0] == ':');
        }
        assert(false);
    }
}

/// Scanning may skip any plain prefix: the leftmost occurrence lies at
/// or after the first special character.
proof fn lemma_find_skip_plain(s: Seq<char>, pos: int)
    requires
        0 <= pos <= s.len(),
        forall|p: int| 0 <= p < pos ==> !special_char(#[trigger] s[p]),
    ensures
        find_separator_from(s, 0) == find_separator_from(s, pos),
    decreases pos,
{
    if pos == 0 {
    } else {
        lemma_find_skip_plain(s, pos - 1);
        lemma_no_match_at_plain_char(s, pos - 1);
    }
}

/// At the boundary `key | sep | value` of a plain key and value, the
/// longest-first probe resolves exactly `sep`: a longer separator would
/// need a special character from `value`, and every earlier table entry
/// differs from `sep` within the separator's own characters.
proof fn lemma_match_at_boundary(key: Seq<char>, value: Seq<char>, k: int)
    requires
        plain_text(value),
        0 <= k < 7,
    ensures
        separator_match_at(
            key + separator_table()[k].0 + value,
            key.len() as int,
        ) == Some(k),
{
    let sep = separator_table()[k].0;
    let s = key + sep + value;
    let pos = key.len() as int;
    assert(s.len() == pos + sep.len() + value.len());
    assert forall|m: int| 0 <= m < sep.len() implies s[pos + m] == sep[m] by {}
    assert forall|q: int| 0 <= q < value.len() implies s[pos + sep.len() + q] == value[q] by {}
    assert(matches_at(s, pos, sep)) by {
        assert(s.subrange(pos, pos + sep.len()) =~= sep);
    }
    let t0 = separator_table()[0].0;
    let t1 = separator_table()[1].0;
    let t2 = separator_table()[2].0;
    let t3 = separator_table()[3].0;
    let t4 = separator_table()[4].0;
    let t5 = separator_table()[5].0;
    assert(t0 =~= seq![':', '=', '@']);
    assert(t1 =~= seq![':', '=']);
    assert(t2 =~= seq!['=', '@']);
    assert(t3 =~= seq!['=', '=']);
    assert(t4 =~= seq!['@']);
    assert(t5 =~= seq!['=']);
    assert(separator_table()[6].0 =~= seq![':']);
    if k == 1 {
        // ":=" — ":=@" would need value to start with '@'
        if matches_at(s, pos, t0) {
            lemma_match_char(s, pos, t0, 2);
            assert(s[pos + 2] == value[0]);
            assert(false);
        }
    } else if k == 2 {
        // "=@" — entries starting with ':' cannot match
        if matches_at(s, pos, t0) {
            lemma_match_char(s, pos, t0, 0);
            assert(false);
        }
        if matches_at(s, pos, t1) {
            lemma_match_char(s, pos, t1, 0);
            assert(false);
        }
    } else if k == 3 {
        // "==" — ':' starts fail, and "=@" needs '@' where '=' stands
        if matches_at(s, pos, t0) {
            lemma_match_char(s, pos, t0, 0);
            assert(false);
        }
        if matches_at(s, pos, t1) {
            lemma_match_char(s, pos, t1, 0);
            assert(false);
        }
        if matches_at(s, pos, t2) {
            lemma_match_char(s, pos, t2, 1);
            assert(false);
        }
    } else if k == 4 {
        // "@" — every earlier entry starts with ':' or '='
        if matches_at(s, pos, t0) {
            lemma_match_char(s, pos, t0, 0);
            assert(false);
        }
        if matches_at(s, pos, t1) {
            lemma_match_char(s, pos, t1, 0);
            assert(false);
        }
        if matches_at(s, pos, t2) {
            lemma_match_char(s, pos, t2, 0);
            assert(false);
        }
        if matches_at(s, pos, t3) {
            lemma_match_char(s, pos, t3, 0);
            assert(false);
        }
    } else if k == 5 {
        // "=" — two-character entries would take value's first character
        if matches_at(s, pos, t0) {
            lemma_match_char(s, pos, t0, 0);
            assert(false);
        }
        if matches_at(s, pos, t1) {
            lemma_match_char(s, pos, t1, 0);
            assert(false);
        }
        if matches_at(s, pos, t2) {
            lemma_match_char(s, pos, t2, 1);
            assert(s[pos + 1] == value[0]);
            assert(false);
        }
        if matches_at(s, pos, t3) {
            lemma_match_char(s, pos, t3, 1);
            assert(s[pos + 1] == value[0]);
            assert(false);
        }
        if matches_at(s, pos, t4) {
            lemma_match_char(s, pos, t4, 0);
            assert(false);
        }
    } else if k == 6 {
        // ":" — ":=@" and ":=" would take value's first character
        if matches_at(s, pos, t0) {
            lemma_match_char(s, pos, t0, 1);
            assert(s[pos + 1] == value[0]);
            assert(false);
        }
        if matches_at(s, pos, t1) {
            lemma_match_char(s, pos, t1, 1);
            assert(s[pos + 1] == value[0]);
            assert(false);
        }
        if matches_at(s, pos, t2) {
            lemma_match_char(s, pos, t2, 0);
            assert(false);
        }
        if matches_at(s, pos, t3) {
            lemma_match_char(s, pos, t3, 0);
            assert(false);
        }
        if matches_at(s, pos, t4) {
            lemma_match_char(s, pos, t4, 0);
            assert(false);
        }
        if matches_at(s, pos, t5) {
            lemma_match_char(s, pos, t5, 0);
            assert(false);
        }
    }
    reveal_with_fuel(table_match_from, 9);
    assert(table_match_from(s, pos, 0) == Some(k));
}

/// A raw string `key sep value` with a plain key and value classifies
/// to exactly that key, that value, and the variant the table assigns
/// to `sep`.
pub proof fn lemma_plain_item_classifies(key: Seq<char>, value: Seq<char>, k: int)
    requires
        plain_text(key),
        plain_text(value),
        0 <= k < 7,
    ensures
        classify_spec(key + separator_table()[k].0 + value) == Some(
            RequestItemModel { key: key, value: value, variant: separator_table()[k].1 },
        ),
{
    let sep = separator_table()[k].0;
    let s = key + sep + value;
    let pos = key.len() as int;
    assert forall|m: int| 0 <= m < sep.len() implies special_char(#[trigger] sep[m]) && sep[m]
        != '\\' by {
        assert(separator_table()[0].0 =~= seq![':', '=', '@']);
        assert(separator_table()[1].0 =~= seq![':', '=']);
        assert(separator_table()[2].0 =~= seq!['=', '@']);
        assert(separator_table()[3].0 =~= seq!['=', '=']);
        assert(separator_table()[4].0 =~= seq!['@']);
        assert(separator_table()[5].0 =~= seq!['=']);
        assert(separator_table()[6].0 =~= seq![':']);
    }
    assert forall|p: int| 0 <= p < s.len() implies s[p] != '\\' by {
        if p < pos {
            assert(s[p] == key[p]);
        } else if p < pos + sep.len() {
            assert(s[p] == sep[p - pos]);
        } else {
            assert(s[p] == value[p - pos - sep.len()]);
        }
    }
    lemma_tokenize_no_backslash(s, 0, Seq::empty(), Seq::empty());
    let segs = tokenize_spec(s);
    assert(Seq::<char>::empty() + s.subrange(0, s.len() as int) =~= s);
    assert(segs =~= Seq::<SegmentModel>::empty().push(SegmentModel::Normal(s)));

    lemma_match_at_boundary(key, value, k);
    assert forall|p: int| 0 <= p < pos implies !special_char(#[trigger] s[p]) by {
        assert(s[p] == key[p]);
    }
    lemma_find_skip_plain(s, pos);
    assert(find_separator(s) == Some((pos, k)));

    assert(tail_content(segs, 1) =~= Seq::<char>::empty());
    assert(s.subrange(0, pos) =~= key);
    assert(s.subrange(pos + sep.len(), s.len() as int) =~= value);
    assert(Seq::<char>::empty() + s.subrange(0, pos) =~= key);
    assert(s.subrange(pos + sep.len(), s.len() as int) + tail_content(segs, 1) =~= value);
    assert(classify_from(segs, 0, Seq::empty()) == Some((key, value, k as int)));
}

/// Compares two string slices character by character.
pub(crate) fn str_eq(a: &str, b: &str) -> (r: bool)
    ensures
        r == (a@ == b@),
{
    let n = a.unicode_len();
    if n != b.unicode_len() {
        return false;
    }
    let mut i: usize = 0;
    while i < n
        invariant
            n == a@.len(),
            n == b@.len(),
            i <= n,
            forall|p: int| 0 <= p < i ==> a@[p] == b@[p],
        decreases n - i,
    {
        if a.get_char(i) != b.get_char(i) {
            return false;
        }
        i += 1;
    }
    proof {
        assert(a@ =~= b@);
    }
    true
}

/// A memoization cache for classification: a mapping from raw strings to
/// their already-classified items. It is a pure optimization — every
/// entry agrees with [`classify_spec`], so a cached answer equals the
/// answer a fresh classification would give.
pub struct Cache {
    entries: Vec<(String, RequestItem)>,
}

impl Cache {
    /// Every cached entry is the classification of its raw string.
    pub closed spec fn wf(self) -> bool {
        forall|i: int|
            0 <= i < self.entries@.len() ==> classify_spec(
                (#[trigger] self.entries@[i]).0@,
            ) == Some(self.entries@[i].1@)
    }

    /// An empty cache.
    pub fn new() -> (c: Cache)
        ensures
            c.wf(),
    {
        Cache { entries: Vec::new() }
    }

    /// Looks a raw string up; a hit is the string's classification.
    pub fn get_from_cache(&self, v: &str) -> (r: Option<RequestItem>)
        requires
            self.wf(),
        ensures
            r is Some ==> classify_spec(v@) == Some(r.unwrap()@),
    {
        let n = self.entries.len();
        let mut i: usize = 0;
        while i < n
            invariant
                self.wf(),
                n == self.entries@.len(),
                i <= n,
            decreases n - i,
        {
            if str_eq(self.entries[i].0.as_str(), v) {
                let hit = &self.entries[i].1;
                let item = RequestItem {
                    key: hit.key.clone(),
                    value: hit.value.clone(),
                    variant: hit.variant,
                };
                return Some(item);
            }
            i += 1;
        }
        None
    }

    /// Records a classification; the entry must agree with
    /// [`classify_spec`], which keeps every later hit honest.
    pub fn insert_to_cache(&mut self, v: String, request_item: RequestItem)
        requires
            old(self).wf(),
            classify_spec(v@) == Some(request_item@),
        ensures
            final(self).wf(),
    {
        self.entries.push((v, request_item));
    }
}

/// Classification through a cache: consults `cache` first, classifies and
/// records on a miss. Whatever the cache held on entry, the answer is the
/// one [`classify_spec`] gives — caching never changes the result.
pub fn get_request_item_cached(cache: &mut Cache, v: String) -> (r: Option<RequestItem>)
    requires
        old(cache).wf(),
    ensures
        final(cache).wf(),
        r is Some <==> classify_spec(v@) is Some,
        r is Some ==> r.unwrap()@ == classify_spec(v@).unwrap(),
{
    if let Some(item) = cache.get_from_cache(v.as_str()) {
        return Some(item);
    }
    let raw = v.clone();
    match get_request_item(v) {
        Some(item) => {
            let copy = RequestItem {
                key: item.key.clone(),
                value: item.value.clone(),
                variant: item.variant,
            };
            cache.insert_to_cache(raw, copy);
            Some(item)
        },
        None => None,
    }
}

/// Validates a raw string as a request item: `Ok` exactly when
/// classification succeeds, per [`classify_spec`].
pub fn is_request_item(v: String) -> (r: Result<(), String>)
    ensures
        r is Ok <==> classify_spec(v@) is Some,
        r is Err ==> r.unwrap_err()@ == "The value does not match the format of a RequestItem"@,
{
    match get_request_item(v) {
        Some(_) => Ok(()),
        None => Err(String::from_str("The value does not match the format of a RequestItem")),
    }
}

} // verus!

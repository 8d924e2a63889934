//! Messages exchanged with clients and with the upstream market-data
//! service, and the stream identifiers a client expression names.
use crate::expr::{is_separator, last_at, last_at_of, stream_suffix, suffix_after};
use crate::plan::string_views;
use vstd::prelude::*;

verus! {

/// The first frame of a client: `stream` is `E@I`.
pub struct Request {
    pub id: u32,
    pub method: String,
    pub stream: String,
}

/// The frame that subscribes an upstream connection to its streams.
pub struct BinanceSubscription {
    pub id: u32,
    pub method: String,
    pub params: Vec<String>,
}

/// An upstream frame of a combined stream.
pub struct BinanceMessage {
    pub data: BinanceData,
}

/// The event of an upstream frame.
#[allow(non_snake_case)]
pub struct BinanceData {
    pub e: String,
    pub E: u64,
    pub s: String,
    pub k: BinanceKlineData,
}

/// A kline as the upstream sends it; prices are decimal strings.
#[allow(non_snake_case)]
pub struct BinanceKlineData {
    pub t: u64,
    pub T: u64,
    pub s: String,
    pub i: String,
    pub f: u64,
    pub L: u64,
    pub o: String,
    pub c: String,
    pub h: String,
    pub l: String,
    pub v: String,
    pub n: u64,
    pub x: bool,
    pub q: String,
    pub V: String,
    pub Q: String,
    pub B: String,
}

/// The pieces of `s` between separator characters (`+ - * / ( )`), empty
/// pieces included: `k` separators give `k + 1` pieces.
pub open spec fn split_pieces(s: Seq<char>) -> Seq<Seq<char>>
    decreases s.len(),
{
    if s.len() == 0 {
        seq![seq![]]
    } else {
        let p = split_pieces(s.drop_last());
        if is_separator(s.last()) {
            p.push(seq![])
        } else {
            p.update(p.len() - 1, p.last().push(s.last()))
        }
    }
}

/// Relies on `regex::Regex::split` with the one-character class
/// `[()+*/-]`: the pieces of the haystack between matches, in order, with
/// an empty piece next to a separator at either end or between two
/// adjacent separators.
#[verifier::external_body]
fn split_on_separators(s: &str) -> (r: Vec<String>)
    ensures
        string_views(r@) == split_pieces(s@),
{
    let re = regex::Regex::new(r"([()+*/-])").unwrap();
    re.split(s).map(|p| p.to_string()).collect()
}

/// Unicode White_Space, which `char::is_whitespace` and `str::trim` go by.
pub open spec fn white_space(c: char) -> bool {
    ('\u{9}' <= c <= '\u{d}') || c == ' ' || c == '\u{85}' || c == '\u{a0}' || c == '\u{1680}' || (
    '\u{2000}' <= c <= '\u{200a}') || c == '\u{2028}' || c == '\u{2029}' || c == '\u{202f}' || c
        == '\u{205f}' || c == '\u{3000}'
}

/// Nothing but white space: what trims to the empty string.
pub open spec fn blank(s: Seq<char>) -> bool {
    forall|i: int| 0 <= i < s.len() ==> white_space(#[trigger] s[i])
}

fn is_white_space(c: char) -> (r: bool)
    ensures
        r == white_space(c),
{
    ('\u{9}' <= c && c <= '\u{d}') || c == ' ' || c == '\u{85}' || c == '\u{a0}' || c == '\u{1680}'
        || ('\u{2000}' <= c && c <= '\u{200a}') || c == '\u{2028}' || c == '\u{2029}' || c
        == '\u{202f}' || c == '\u{205f}' || c == '\u{3000}'
}

fn is_blank(s: &str) -> (r: bool)
    ensures
        r == blank(s@),
{
    let n = s.unicode_len();
    let mut i: usize = 0;
    while i < n
        invariant
            n == s@.len(),
            i <= n,
            forall|j: int| 0 <= j < i ==> white_space(#[trigger] s@[j]),
        decreases n - i,
    {
        if !is_white_space(s.get_char(i)) {
            return false;
        }
        i = i + 1;
    }
    true
}

/// The non-blank pieces, each followed by `suffix`.
pub open spec fn named_streams(pieces: Seq<Seq<char>>, suffix: Seq<char>) -> Seq<Seq<char>>
    decreases pieces.len(),
{
    if pieces.len() == 0 {
        seq![]
    } else {
        let prev = named_streams(pieces.drop_last(), suffix);
        if blank(pieces.last()) {
            prev
        } else {
            prev.push(pieces.last() + suffix)
        }
    }
}

/// The stream identifiers named by `E@I`, in order and with repetitions:
/// each non-blank piece of `E` between separators, followed by
/// `@kline_I`.
pub open spec fn stream_ids(input: Seq<char>) -> Seq<Seq<char>> {
    let d = last_at(input);
    named_streams(
        split_pieces(input.subrange(0, d)),
        stream_suffix(input.subrange(d + 1, input.len() as int)),
    )
}

/// Lists the upstream stream identifiers that the client stream `E@I`
/// names: `btcusdt+ethusdt@1h` gives `btcusdt@kline_1h` and
/// `ethusdt@kline_1h`; blank pieces between separators are skipped.
pub fn parse_streams(input: &str) -> (r: Vec<String>)
    requires
        last_at(input@) >= 0,
    ensures
        string_views(r@) == stream_ids(input@),
{
    let d = last_at_of(input).unwrap();
    let suffix = suffix_after(input, d);
    let body = input.substring_char(0, d);
    let pieces = split_on_separators(body);
    let ghost pv = string_views(pieces@);
    let mut r: Vec<String> = Vec::new();
    let mut i: usize = 0;
    assert(pv.take(0) =~= seq![]);
    assert(string_views(r@) =~= seq![]);
    while i < pieces.len()
        invariant
            pv == string_views(pieces@),
            i <= pieces.len(),
            string_views(r@) == named_streams(pv.take(i as int), suffix@),
        decreases pieces.len() - i,
    {
        assert(pv.take(i + 1).drop_last() =~= pv.take(i as int));
        assert(pv.take(i + 1).last() == pieces@[i as int]@);
        let piece = &pieces[i];
        if !is_blank(piece.as_str()) {
            let ghost before = string_views(r@);
            r.push(piece.clone().concat(suffix.as_str()));
            assert(string_views(r@) =~= before.push(piece@ + suffix@));
        }
        i = i + 1;
    }
    assert(pv.take(i as int) =~= pv);
    r
}

/// The frame that subscribes a new upstream connection to `stream`, with
/// the id and method of the client request that asked for it.
pub fn subscription_for(req: &Request, stream: &str) -> (r: BinanceSubscription)
    ensures
        r.id == req.id,
        r.method@ == req.method@,
        string_views(r.params@) == seq![stream@],
{
    let mut params: Vec<String> = Vec::new();
    params.push(stream.to_owned());
    assert(string_views(params@) =~= seq![stream@]);
    BinanceSubscription { id: req.id, method: req.method.clone(), params }
}

} // verus!

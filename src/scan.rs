use vstd::prelude::*;
use vstd::utf8::*;

verus! {

/// Relies on `String::from_utf8`: it succeeds exactly on valid UTF-8, and
/// then holds the characters that the bytes encode.
#[verifier::external_body]
pub(crate) fn utf8_string(b: &[u8], start: usize, end: usize) -> (r: Option<String>)
    requires
        start <= end <= b@.len(),
    ensures
        r is Some <==> valid_utf8(b@.subrange(start as int, end as int)),
        r matches Some(s) ==> s@ == decode_utf8(b@.subrange(start as int, end as int)),
{
    String::from_utf8(b[start..end].to_vec()).ok()
}

/// Relies on `String`'s `FromIterator<&char>`: the string holds the characters in order.
#[verifier::external_body]
pub(crate) fn chars_to_string(cs: &Vec<char>, start: usize, end: usize) -> (r: String)
    requires
        start <= end <= cs@.len(),
    ensures
        r@ == cs@.subrange(start as int, end as int),
{
    cs[start..end].iter().collect()
}

/// The characters of `s`, in order.
pub fn chars_of(s: &str) -> (r: Vec<char>)
    ensures
        r@ == s@,
{
    let mut r: Vec<char> = Vec::new();
    for c in it: s.chars()
        invariant
            r@ == it.seq().take(it.index() as int),
    {
        r.push(c);
    }
    r
}

/// The character sequences held by a sequence of character vectors.
pub open spec fn seqs(v: Seq<Vec<char>>) -> Seq<Seq<char>> {
    v.map_values(|x: Vec<char>| x@)
}

/// Whether `c` is white space in the sense of Unicode's `White_Space` property.
pub open spec fn is_whitespace(c: char) -> bool {
    ('\t' <= c && c <= '\r') || c == ' ' || c == '\u{85}' || c == '\u{a0}' || c == '\u{1680}' || (
    '\u{2000}' <= c && c <= '\u{200a}') || c == '\u{2028}' || c == '\u{2029}' || c == '\u{202f}'
        || c == '\u{205f}' || c == '\u{3000}'
}

/// The characters that trimming removes: double quotes, or else white space.
pub open spec fn is_edge(c: char, quotes: bool) -> bool {
    if quotes {
        c == '"'
    } else {
        is_whitespace(c)
    }
}

/// `s` without the edge characters at its start and at its end.
pub open spec fn trim_edges(s: Seq<char>, quotes: bool) -> Seq<char>
    decreases s.len(),
{
    if s.len() > 0 && is_edge(s[0], quotes) {
        trim_edges(s.drop_first(), quotes)
    } else if s.len() > 0 && is_edge(s.last(), quotes) {
        trim_edges(s.drop_last(), quotes)
    } else {
        s
    }
}

/// `s` without leading and trailing white space.
pub open spec fn trim(s: Seq<char>) -> Seq<char> {
    trim_edges(s, false)
}

/// `s` without leading and trailing double quotes.
pub open spec fn trim_quotes(s: Seq<char>) -> Seq<char> {
    trim_edges(s, true)
}

/// The index of the first `c` in `s` at or after `i`, or the length of `s` when there is none.
pub open spec fn find_from(s: Seq<char>, c: char, i: int) -> int
    decreases s.len() - i,
{
    if i < 0 || i >= s.len() {
        s.len() as int
    } else if s[i] == c {
        i
    } else {
        find_from(s, c, i + 1)
    }
}

/// The pieces of `s` between separators `sep`, for a piece that began at `start`
/// and a scan that has reached `i`. With `last`, a piece that would start at the
/// very end is dropped (so a final separator closes the last piece).
pub open spec fn pieces(s: Seq<char>, sep: char, last: bool, start: int, i: int) -> Seq<Seq<char>>
    decreases s.len() - i,
{
    if i < 0 || i >= s.len() {
        if last && start >= s.len() {
            seq![]
        } else {
            seq![s.subrange(start, s.len() as int)]
        }
    } else if s[i] == sep {
        seq![s.subrange(start, i)] + pieces(s, sep, last, i + 1, i + 1)
    } else {
        pieces(s, sep, last, start, i + 1)
    }
}

/// The lines of `s`: the pieces between line feeds, none after a final line feed.
pub open spec fn lines(s: Seq<char>) -> Seq<Seq<char>> {
    pieces(s, '\n', true, 0, 0)
}

/// The pieces of `s` between commas; one piece when there is no comma.
pub open spec fn split_commas(s: Seq<char>) -> Seq<Seq<char>> {
    pieces(s, ',', false, 0, 0)
}

/// A copy of `cs[start..end]`.
pub fn copy_range(cs: &Vec<char>, start: usize, end: usize) -> (r: Vec<char>)
    requires
        start <= end <= cs@.len(),
    ensures
        r@ == cs@.subrange(start as int, end as int),
{
    let mut r: Vec<char> = Vec::new();
    let mut i: usize = start;
    while i < end
        invariant
            start <= i <= end <= cs@.len(),
            r@ == cs@.subrange(start as int, i as int),
        decreases end - i,
    {
        r.push(cs[i]);
        assert(r@ =~= cs@.subrange(start as int, i + 1));
        i = i + 1;
    }
    r
}

/// The pieces of `cs` between separators `sep` (see [`pieces`]).
pub fn split_pieces(cs: &Vec<char>, sep: char, last: bool) -> (r: Vec<Vec<char>>)
    ensures
        seqs(r@) == pieces(cs@, sep, last, 0, 0),
{
    let mut r: Vec<Vec<char>> = Vec::new();
    let mut start: usize = 0;
    let mut i: usize = 0;
    while i < cs.len()
        invariant
            start <= i <= cs@.len(),
            pieces(cs@, sep, last, 0, 0) == seqs(r@) + pieces(cs@, sep, last, start as int, i as int),
        decreases cs@.len() - i,
    {
        if cs[i] == sep {
            let ghost before = seqs(r@);
            let piece = copy_range(cs, start, i);
            r.push(piece);
            assert(seqs(r@) =~= before + seq![cs@.subrange(start as int, i as int)]);
            assert(before + (seq![cs@.subrange(start as int, i as int)] + pieces(
                cs@,
                sep,
                last,
                i + 1,
                i + 1,
            )) =~= seqs(r@) + pieces(cs@, sep, last, i + 1, i + 1));
            start = i + 1;
        }
        i = i + 1;
    }
    if !(last && start >= cs.len()) {
        let ghost before = seqs(r@);
        let piece = copy_range(cs, start, cs.len());
        r.push(piece);
        assert(seqs(r@) =~= before + seq![cs@.subrange(start as int, cs@.len() as int)]);
    } else {
        assert(seqs(r@) + Seq::<Seq<char>>::empty() =~= seqs(r@));
    }
    r
}

/// Whether `c` is one of the characters that trimming removes.
fn edge_char(c: char, quotes: bool) -> (r: bool)
    ensures
        r == is_edge(c, quotes),
{
    if quotes {
        c == '"'
    } else {
        ('\t' <= c && c <= '\r') || c == ' ' || c == '\u{85}' || c == '\u{a0}' || c == '\u{1680}'
            || ('\u{2000}' <= c && c <= '\u{200a}') || c == '\u{2028}' || c == '\u{2029}' || c
            == '\u{202f}' || c == '\u{205f}' || c == '\u{3000}'
    }
}

/// `cs` without the edge characters at its start and its end (see [`trim_edges`]).
pub fn trim_chars(cs: &Vec<char>, quotes: bool) -> (r: Vec<char>)
    ensures
        r@ == trim_edges(cs@, quotes),
{
    let mut start: usize = 0;
    let mut end: usize = cs.len();
    assert(cs@.subrange(0, cs@.len() as int) =~= cs@);
    while start < end && edge_char(cs[start], quotes)
        invariant
            start <= end == cs@.len(),
            trim_edges(cs@.subrange(start as int, end as int), quotes) == trim_edges(cs@, quotes),
        decreases end - start,
    {
        assert(cs@.subrange(start as int, end as int).drop_first() =~= cs@.subrange(
            start + 1,
            end as int,
        ));
        start = start + 1;
    }
    while end > start && edge_char(cs[end - 1], quotes)
        invariant
            start <= end <= cs@.len(),
            start == end || !is_edge(cs@[start as int], quotes),
            trim_edges(cs@.subrange(start as int, end as int), quotes) == trim_edges(cs@, quotes),
        decreases end - start,
    {
        let ghost sub = cs@.subrange(start as int, end as int);
        assert(sub.drop_last() =~= cs@.subrange(start as int, end - 1));
        assert(sub[0] == cs@[start as int]);
        end = end - 1;
    }
    let r = copy_range(cs, start, end);
    proof {
        let sub = cs@.subrange(start as int, end as int);
        if start < end {
            assert(sub[0] == cs@[start as int]);
            assert(sub.last() == cs@[end - 1]);
        }
    }
    r
}

/// The index of the first `c` in `cs` at or after `i`, or the length of `cs` when there is none.
pub fn find_char(cs: &Vec<char>, c: char, i: usize) -> (r: usize)
    ensures
        r as int == find_from(cs@, c, i as int),
        i <= cs@.len() ==> i <= r <= cs@.len(),
        r < cs@.len() ==> cs@[r as int] == c,
{
    let mut j: usize = i;
    if j > cs.len() {
        return cs.len();
    }
    while j < cs.len() && cs[j] != c
        invariant
            i <= j <= cs@.len(),
            find_from(cs@, c, j as int) == find_from(cs@, c, i as int),
        decreases cs@.len() - j,
    {
        j = j + 1;
    }
    j
}

/// Appends the characters of `s` to `out`.
pub fn push_str(out: &mut Vec<char>, s: &str)
    ensures
        final(out)@ == old(out)@ + s@,
{
    let ghost start = out@;
    for c in it: s.chars()
        invariant
            out@ == start + it.seq().take(it.index() as int),
    {
        out.push(c);
        assert(out@ =~= start + it.seq().take(it.index() + 1));
    }
}

/// Appends the UTF-8 bytes of the characters `cs` to `out`.
pub fn append_utf8(out: &mut Vec<u8>, cs: &Vec<char>)
    ensures
        final(out)@ == old(out)@ + encode_utf8(cs@),
{
    let s = chars_to_string(cs, 0, cs.len());
    assert(cs@.subrange(0, cs@.len() as int) =~= cs@);
    out.extend_from_slice(s.as_str().as_bytes());
}

/// Whether `s` holds no `c`.
pub open spec fn lacks(s: Seq<char>, c: char) -> bool {
    forall|i: int| 0 <= i < s.len() ==> s[i] != c
}

/// Splitting skips over a stretch without separators.
pub proof fn lemma_pieces_scan(s: Seq<char>, sep: char, last: bool, start: int, i: int, e: int)
    requires
        0 <= start <= i <= e < s.len(),
        s[e] == sep,
        forall|j: int| i <= j < e ==> s[j] != sep,
    ensures
        pieces(s, sep, last, start, i) == seq![s.subrange(start, e)] + pieces(
            s,
            sep,
            last,
            e + 1,
            e + 1,
        ),
    decreases e - i,
{
    if i < e {
        lemma_pieces_scan(s, sep, last, start, i + 1, e);
    }
}

/// Splitting the end of a sequence is splitting that end alone.
pub proof fn lemma_pieces_shift(p: Seq<char>, r: Seq<char>, sep: char, last: bool, start: int, i: int)
    requires
        0 <= start <= i <= r.len(),
    ensures
        pieces(p + r, sep, last, p.len() + start, p.len() + i) == pieces(r, sep, last, start, i),
    decreases r.len() - i,
{
    let s = p + r;
    if i < r.len() {
        assert(s[p.len() + i] == r[i]);
        if r[i] == sep {
            assert(s.subrange(p.len() + start, p.len() + i) =~= r.subrange(start, i));
            lemma_pieces_shift(p, r, sep, last, i + 1, i + 1);
        } else {
            lemma_pieces_shift(p, r, sep, last, start, i + 1);
        }
    } else {
        assert(s.subrange(p.len() + start, s.len() as int) =~= r.subrange(start, r.len() as int));
    }
}

/// A first piece without separators, closed by a separator, comes first.
pub proof fn lemma_pieces_cons(a: Seq<char>, r: Seq<char>, sep: char, last: bool)
    requires
        lacks(a, sep),
    ensures
        pieces(a + seq![sep] + r, sep, last, 0, 0) == seq![a] + pieces(r, sep, last, 0, 0),
{
    let p = a + seq![sep];
    let s = p + r;
    assert(s[a.len() as int] == sep);
    assert(forall|j: int| 0 <= j < a.len() ==> s[j] == a[j]);
    lemma_pieces_scan(s, sep, last, 0, 0, a.len() as int);
    assert(s.subrange(0, a.len() as int) =~= a);
    lemma_pieces_shift(p, r, sep, last, 0, 0);
}

/// A sequence without separators is one piece, unless it is empty and a
/// final empty piece is dropped.
pub proof fn lemma_pieces_single(a: Seq<char>, sep: char, last: bool, start: int, i: int)
    requires
        lacks(a, sep),
        0 <= start <= i <= a.len(),
        !(last && start >= a.len()),
    ensures
        pieces(a, sep, last, start, i) == seq![a.subrange(start, a.len() as int)],
    decreases a.len() - i,
{
    if i < a.len() {
        lemma_pieces_single(a, sep, last, start, i + 1);
    }
}

/// Trimming leaves alone a sequence whose ends are not edge characters.
pub proof fn lemma_trim_none(s: Seq<char>, quotes: bool)
    requires
        s.len() == 0 || (!is_edge(s[0], quotes) && !is_edge(s.last(), quotes)),
    ensures
        trim_edges(s, quotes) == s,
{
}

/// Trimming drops one leading edge character.
pub proof fn lemma_trim_lead(c: char, s: Seq<char>, quotes: bool)
    requires
        is_edge(c, quotes),
    ensures
        trim_edges(seq![c] + s, quotes) == trim_edges(s, quotes),
{
    assert((seq![c] + s).drop_first() =~= s);
}

/// Trimming drops one trailing edge character after a non-edge start.
pub proof fn lemma_trim_trail(s: Seq<char>, c: char, quotes: bool)
    requires
        is_edge(c, quotes),
        s.len() > 0,
        !is_edge(s[0], quotes),
    ensures
        trim_edges(s + seq![c], quotes) == trim_edges(s, quotes),
{
    assert((s + seq![c]).drop_last() =~= s);
    assert((s + seq![c])[0] == s[0]);
}

/// Digits, capital letters, `_` and `-`: the characters of numbers, tokens and keys.
pub open spec fn is_plain(c: char) -> bool {
    ('0' <= c && c <= '9') || ('A' <= c && c <= 'Z') || c == '_' || c == '-'
}

pub open spec fn plain(s: Seq<char>) -> bool {
    forall|i: int| 0 <= i < s.len() ==> is_plain(#[trigger] s[i])
}

/// A plain sequence holds no separator, quote, colon, comment mark or white space.
pub proof fn lemma_plain(s: Seq<char>)
    requires
        plain(s),
    ensures
        lacks(s, ','),
        lacks(s, '\n'),
        lacks(s, ':'),
        forall|i: int| 0 <= i < s.len() ==> !is_whitespace(#[trigger] s[i]) && s[i] != '"' && s[i]
            != '#',
{
    assert forall|i: int| 0 <= i < s.len() implies !is_whitespace(#[trigger] s[i]) && s[i] != '"'
        && s[i] != '#' && s[i] != ',' && s[i] != '\n' && s[i] != ':' by {
        assert(is_plain(s[i]));
    }
}

/// Two plain sequences joined are plain.
pub proof fn lemma_plain_concat(a: Seq<char>, b: Seq<char>)
    requires
        plain(a),
        plain(b),
    ensures
        plain(a + b),
{
    assert forall|i: int| 0 <= i < (a + b).len() implies is_plain(#[trigger] (a + b)[i]) by {
        if i < a.len() {
            assert((a + b)[i] == a[i]);
        } else {
            assert((a + b)[i] == b[i - a.len()]);
        }
    }
}

/// Two sequences without `c`, joined, hold no `c`.
pub proof fn lemma_lacks_concat(a: Seq<char>, b: Seq<char>, c: char)
    requires
        lacks(a, c),
        lacks(b, c),
    ensures
        lacks(a + b, c),
{
    assert forall|i: int| 0 <= i < (a + b).len() implies (a + b)[i] != c by {
        if i < a.len() {
            assert((a + b)[i] == a[i]);
        } else {
            assert((a + b)[i] == b[i - a.len()]);
        }
    }
}

/// The search for `c` skips a stretch without it.
pub proof fn lemma_find_scan(s: Seq<char>, c: char, i: int, e: int)
    requires
        0 <= i <= e < s.len(),
        s[e] == c,
        forall|j: int| i <= j < e ==> s[j] != c,
    ensures
        find_from(s, c, i) == e,
    decreases e - i,
{
    if i < e {
        lemma_find_scan(s, c, i + 1, e);
    }
}

/// UTF-8 encoding distributes over concatenation.
pub proof fn lemma_encode_utf8_concat(a: Seq<char>, b: Seq<char>)
    ensures
        encode_utf8(a + b) == encode_utf8(a) + encode_utf8(b),
    decreases a.len(),
{
    if a.len() == 0 {
        assert(a + b =~= b);
    } else {
        lemma_encode_utf8_concat(a.drop_first(), b);
        assert((a + b).drop_first() =~= a.drop_first() + b);
        assert(encode_utf8(a + b) =~= encode_scalar(a[0] as u32) + encode_utf8(a.drop_first() + b));
    }
}

/// A character below 0x80 is encoded as the one byte of its code.
pub proof fn lemma_encode_ascii(c: char)
    requires
        (c as u32) < 0x80,
    ensures
        encode_utf8(seq![c]) == seq![(c as u32) as u8],
{
    let u = c as u32;
    assert(u & 0x7F == u) by (bit_vector)
        requires
            u < 0x80,
    ;
    assert(encode_utf8(seq![c]) =~= encode_scalar(c as u32) + encode_utf8(seq![c].drop_first()));
    assert(seq![c].drop_first() =~= Seq::<char>::empty());
}

} // verus!

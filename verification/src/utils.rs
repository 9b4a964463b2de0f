use vstd::prelude::*;
use vstd::string::StrSliceExecFns;
use vstd::string::StringExecFns;

verus! {

/// The character for one decimal digit.
pub open spec fn digit_char(d: int) -> char {
    if d == 0 {
        '0'
    } else if d == 1 {
        '1'
    } else if d == 2 {
        '2'
    } else if d == 3 {
        '3'
    } else if d == 4 {
        '4'
    } else if d == 5 {
        '5'
    } else if d == 6 {
        '6'
    } else if d == 7 {
        '7'
    } else if d == 8 {
        '8'
    } else {
        '9'
    }
}

/// The decimal rendering of a natural number, most significant digit first.
pub open spec fn dec_str(n: nat) -> Seq<char>
    decreases n,
{
    if n < 10 {
        seq![digit_char(n as int)]
    } else {
        dec_str(n / 10).push(digit_char((n % 10) as int))
    }
}

fn digit_str(d: usize) -> (r: &'static str)
    requires
        d < 10,
    ensures
        r@ == seq![digit_char(d as int)],
{
    let r: &'static str = if d == 0 {
        "0"
    } else if d == 1 {
        "1"
    } else if d == 2 {
        "2"
    } else if d == 3 {
        "3"
    } else if d == 4 {
        "4"
    } else if d == 5 {
        "5"
    } else if d == 6 {
        "6"
    } else if d == 7 {
        "7"
    } else if d == 8 {
        "8"
    } else {
        "9"
    };
    proof {
        reveal_strlit("0");
        reveal_strlit("1");
        reveal_strlit("2");
        reveal_strlit("3");
        reveal_strlit("4");
        reveal_strlit("5");
        reveal_strlit("6");
        reveal_strlit("7");
        reveal_strlit("8");
        reveal_strlit("9");
        assert(r@ =~= seq![digit_char(d as int)]);
    }
    r
}

/// The decimal rendering of a number, as the note id is stored in the
/// last-touched attribute row.
pub fn usize_to_string(n: usize) -> (r: String)
    ensures
        r@ == dec_str(n as nat),
    decreases n,
{
    if n < 10 {
        String::from_str(digit_str(n))
    } else {
        let mut s = usize_to_string(n / 10);
        s.append(digit_str(n % 10));
        proof {
            assert(s@ =~= dec_str(n as nat));
        }
        s
    }
}

/// Character statistics for a piece of rich text.
pub struct CharCount {
    ascii: usize,
    grapheme: usize,
    other: usize,
}

/// An ASCII decimal digit.
pub open spec fn is_digit_char(c: char) -> bool {
    48 <= c as int && c as int <= 57
}

/// A non-empty string of ASCII decimal digits.
pub open spec fn all_digits(s: Seq<char>) -> bool {
    s.len() > 0 && forall|i: int| 0 <= i < s.len() ==> is_digit_char(#[trigger] s[i])
}

/// The numeric value of a digit string, most significant digit first.
pub open spec fn dec_value(s: Seq<char>) -> int
    decreases s.len(),
{
    if s.len() == 0 {
        0
    } else {
        dec_value(s.drop_last()) * 10 + (s.last() as int - 48)
    }
}

proof fn lemma_dec_value_nonneg(s: Seq<char>)
    requires
        forall|i: int| 0 <= i < s.len() ==> is_digit_char(#[trigger] s[i]),
    ensures
        dec_value(s) >= 0,
    decreases s.len(),
{
    if s.len() > 0 {
        assert(forall|i: int| 0 <= i < s.drop_last().len() ==> #[trigger] s.drop_last()[i] == s[i]);
        lemma_dec_value_nonneg(s.drop_last());
    }
}

proof fn lemma_dec_value_mono(s: Seq<char>, i: int)
    requires
        0 <= i <= s.len(),
        forall|j: int| 0 <= j < s.len() ==> is_digit_char(#[trigger] s[j]),
    ensures
        dec_value(s) >= dec_value(s.take(i)),
    decreases s.len() - i,
{
    if i < s.len() {
        lemma_dec_value_mono(s, i + 1);
        assert(s.take(i + 1).drop_last() =~= s.take(i));
        assert(s.take(i + 1).last() == s[i]);
        assert(forall|j: int| 0 <= j < i ==> #[trigger] s.take(i)[j] == s[j]);
        lemma_dec_value_nonneg(s.take(i));
        assert(dec_value(s.take(i + 1)) >= dec_value(s.take(i)));
    } else {
        assert(s.take(i) =~= s);
    }
}

/// The decimal rendering round-trips: it is all digits and reads back as
/// the same number.
pub proof fn lemma_dec_str_value(n: nat)
    ensures
        all_digits(dec_str(n)),
        dec_value(dec_str(n)) == n,
    decreases n,
{
    if n < 10 {
        let s = seq![digit_char(n as int)];
        assert(s.len() == 1);
        assert(s[0] == digit_char(n as int));
        assert(s.drop_last() =~= Seq::<char>::empty());
        assert(s.last() == digit_char(n as int));
        assert(is_digit_char(digit_char(n as int)));
        assert(digit_char(n as int) as int - 48 == n);
        assert(dec_value(s) == dec_value(s.drop_last()) * 10 + (s.last() as int - 48));
        assert(dec_value(Seq::<char>::empty()) == 0);
        assert(dec_value(s) == n);
        assert(all_digits(s));
    } else {
        lemma_dec_str_value(n / 10);
        let p = dec_str(n / 10);
        let c = digit_char((n % 10) as int);
        let s = p.push(c);
        assert(dec_str(n) == s);
        assert(s.drop_last() =~= p);
        assert(s.last() == c);
        assert(is_digit_char(c));
        assert(c as int - 48 == n % 10);
        assert(dec_value(s) == dec_value(p) * 10 + (c as int - 48));
        assert((n / 10) * 10 + n % 10 == n);
        assert(dec_value(s) == n);
        assert forall|i: int| 0 <= i < s.len() implies is_digit_char(#[trigger] s[i]) by {
            if i < p.len() {
                assert(s[i] == p[i]);
            }
        }
    }
}

/// Parses a non-empty ASCII digit string into its numeric value; anything
/// else, or a value that does not fit, is rejected.
pub fn parse_decimal(s: &str) -> (r: Option<u64>)
    ensures
        match r {
            Some(v) => all_digits(s@) && v as int == dec_value(s@),
            None => !(all_digits(s@) && dec_value(s@) <= u64::MAX),
        },
{
    let len = s.unicode_len();
    if len == 0 {
        return None;
    }
    let mut acc: u64 = 0;
    let mut i: usize = 0;
    while i < len
        invariant
            len == s@.len(),
            0 < len,
            0 <= i <= len,
            forall|j: int| 0 <= j < i ==> is_digit_char(#[trigger] s@[j]),
            acc as int == dec_value(s@.take(i as int)),
        decreases len - i,
    {
        let c = s.get_char(i);
        let u = c as u32;
        if !(48 <= u && u <= 57) {
            return None;
        }
        let d: u64 = (u - 48) as u64;
        proof {
            assert(s@.take(i as int + 1).drop_last() =~= s@.take(i as int));
            assert(s@.take(i as int + 1).last() == s@[i as int]);
        }
        if acc > (u64::MAX - d) / 10 {
            proof {
                assert(dec_value(s@.take(i as int + 1)) == acc as int * 10 + d);
                assert(acc as int * 10 + d > u64::MAX) by (nonlinear_arith)
                    requires
                        acc > (u64::MAX - d) / 10,
                        d < 10,
                ;
                if all_digits(s@) {
                    lemma_dec_value_mono(s@, i as int + 1);
                }
            }
            return None;
        }
        acc = acc * 10 + d;
        i += 1;
    }
    proof {
        assert(s@.take(len as int) =~= s@);
    }
    Some(acc)
}

/// Equality of two string slices, character by character.
pub fn str_eq(a: &str, b: &str) -> (r: bool)
    ensures
        r == (a@ == b@),
{
    let alen = a.unicode_len();
    let blen = b.unicode_len();
    if alen != blen {
        return false;
    }
    let mut i: usize = 0;
    while i < alen
        invariant
            alen == a@.len(),
            alen == b@.len(),
            0 <= i <= alen,
            forall|j: int| 0 <= j < i ==> a@[j] == b@[j],
        decreases alen - i,
    {
        if a.get_char(i) != b.get_char(i) {
            return false;
        }
        i += 1;
    }
    proof {
        assert(a@ =~= b@);
    }
    true
}


/// The extended grapheme clusters of a string, in order: how the text splits
/// into user-perceived characters.
pub uninterp spec fn graphemes_of(s: Seq<char>) -> Seq<Seq<char>>;

/// The views of a sequence of owned strings.
pub open spec fn views_of(gs: Seq<String>) -> Seq<Seq<char>> {
    gs.map_values(|g: String| g@)
}

/// Relies on unicode_segmentation's `graphemes` with extended clusters: the
/// split is a function of the text alone, and the clusters partition the
/// text — concatenated in order they give it back.
#[verifier::external_body]
fn split_graphemes(text: &str) -> (r: Vec<String>)
    ensures
        views_of(r@) == graphemes_of(text@),
        concat_graphemes(views_of(r@)) == text@,
{
    unicode_segmentation::UnicodeSegmentation::graphemes(text, true)
        .map(|g| g.to_string())
        .collect()
}

/// The concatenation of a sequence of grapheme clusters.
pub open spec fn concat_graphemes(gs: Seq<Seq<char>>) -> Seq<char>
    decreases gs.len(),
{
    if gs.len() == 0 {
        Seq::empty()
    } else {
        concat_graphemes(gs.drop_last()) + gs.last()
    }
}

/// Concatenation splits at any cluster boundary: the whole text is the
/// joined prefix followed by the joined suffix.
pub proof fn lemma_concat_graphemes_split(gs: Seq<Seq<char>>, k: int)
    requires
        0 <= k <= gs.len(),
    ensures
        concat_graphemes(gs) == concat_graphemes(gs.take(k)) + concat_graphemes(gs.skip(k)),
    decreases gs.len(),
{
    if k == gs.len() {
        assert(gs.take(k) =~= gs);
        assert(gs.skip(k) =~= Seq::<Seq<char>>::empty());
        assert(concat_graphemes(gs) =~= concat_graphemes(gs.take(k)) + concat_graphemes(
            gs.skip(k),
        ));
    } else {
        let d = gs.drop_last();
        lemma_concat_graphemes_split(d, k);
        assert(d.take(k) =~= gs.take(k));
        assert(gs.skip(k) =~= d.skip(k).push(gs.last()));
        assert(gs.skip(k).drop_last() =~= d.skip(k));
        assert(concat_graphemes(gs.skip(k)) == concat_graphemes(d.skip(k)) + gs.last());
        assert(concat_graphemes(gs) =~= concat_graphemes(gs.take(k)) + concat_graphemes(
            gs.skip(k),
        ));
    }
}

/// The display cost of a whole cluster sequence.
pub open spec fn total_weight(gs: Seq<Seq<char>>) -> int
    decreases gs.len(),
{
    if gs.len() == 0 {
        0
    } else {
        grapheme_weight(gs[0]) + total_weight(gs.drop_first())
    }
}

/// The greedy prefix takes everything exactly when the whole sequence fits
/// the budget.
pub proof fn lemma_truncate_count_all(gs: Seq<Seq<char>>, size: int)
    requires
        size >= 0,
    ensures
        total_weight(gs) >= 0,
        (truncate_count(gs, size) == gs.len()) <==> (total_weight(gs) <= size),
        0 <= truncate_count(gs, size) <= gs.len(),
    decreases gs.len(),
{
    if gs.len() > 0 {
        let w = grapheme_weight(gs[0]);
        if w <= size {
            lemma_truncate_count_all(gs.drop_first(), size - w);
        } else {
            lemma_truncate_count_all(gs.drop_first(), 0);
        }
    }
}

/// A sample of a text by grapheme positions: the clusters from `start` up to
/// `stop`, joined — or the text itself where the range does not select a
/// proper part of it.  A `stop` past the last cluster is deliberately treated
/// as out of range, never as a failure: the text comes back whole.
pub fn slice_text(start: usize, stop: usize, text: &str) -> (r: String)
    ensures
        r@ == (if start < stop && stop - start < graphemes_of(text@).len() && stop <= graphemes_of(
            text@,
        ).len() {
            concat_graphemes(graphemes_of(text@).subrange(start as int, stop as int))
        } else {
            text@
        }),
{
    let chars = split_graphemes(text);
    let char_count = chars.len();
    let ghost gsv = graphemes_of(text@);
    proof {
        assert(gsv.len() == char_count);
    }
    if start < stop && stop - start < char_count && stop <= char_count {
        let mut sample = String::new();
        let mut i: usize = start;
        while i < stop
            invariant
                start <= i <= stop,
                stop <= char_count,
                char_count == chars@.len(),
                views_of(chars@) == gsv,
                gsv.len() == char_count,
                sample@ == concat_graphemes(gsv.subrange(start as int, i as int)),
            decreases stop - i,
        {
            proof {
                assert(gsv.subrange(start as int, i as int + 1).drop_last() =~= gsv.subrange(
                    start as int,
                    i as int,
                ));
                assert(gsv.subrange(start as int, i as int + 1).last() == gsv[i as int]);
                assert(gsv[i as int] == views_of(chars@)[i as int]);
                assert(views_of(chars@)[i as int] == chars@[i as int]@);
            }
            sample.append(chars[i].as_str());
            i += 1;
        }
        sample
    } else {
        text.to_owned()
    }
}

/// The display weight of one grapheme cluster: plain ASCII counts one, any
/// richer cluster counts two.
pub open spec fn grapheme_weight(g: Seq<char>) -> int {
    if vstd::utf8::is_ascii_chars(g) {
        1
    } else {
        2
    }
}

/// How many leading clusters fit a display budget: clusters are taken while
/// the running weight stays within it.
pub open spec fn truncate_count(gs: Seq<Seq<char>>, size: int) -> int
    decreases gs.len(),
{
    if gs.len() == 0 {
        0
    } else if grapheme_weight(gs[0]) <= size {
        1 + truncate_count(gs.drop_first(), size - grapheme_weight(gs[0]))
    } else {
        0
    }
}

/// Truncates rich text to a display budget: ASCII clusters cost one, all
/// others two, and the text is cut before the first cluster that would go
/// over.  The result is always a leading piece of the text, never a split
/// cluster, and a text whose whole cost fits comes back unchanged.
pub fn truncate_rich_text(text: &str, size: usize) -> (r: String)
    ensures
        r@ == concat_graphemes(
            graphemes_of(text@).take(truncate_count(graphemes_of(text@), size as int)),
        ),
        r@.len() <= text@.len(),
        r@ == text@.subrange(0, r@.len() as int),
        total_weight(graphemes_of(text@)) <= size as int ==> r@ == text@,
{
    let chars = split_graphemes(text);
    let n = chars.len();
    let ghost gsv = graphemes_of(text@);
    proof {
        assert(gsv.len() == n);
        assert(concat_graphemes(gsv) == text@);
    }
    let mut filtered = String::new();
    let mut remaining = size;
    let mut i: usize = 0;
    proof {
        assert(gsv.skip(0) =~= gsv);
        assert(gsv.take(0) =~= Seq::<Seq<char>>::empty());
    }
    while i < n
        invariant
            0 <= i <= n,
            n == chars@.len(),
            gsv == graphemes_of(text@),
            views_of(chars@) == gsv,
            gsv.len() == n,
            concat_graphemes(gsv) == text@,
            remaining <= size,
            truncate_count(gsv, size as int) == i + truncate_count(
                gsv.skip(i as int),
                remaining as int,
            ),
            filtered@ == concat_graphemes(gsv.take(i as int)),
        decreases n - i,
    {
        proof {
            assert(gsv[i as int] == views_of(chars@)[i as int]);
            assert(views_of(chars@)[i as int] == chars@[i as int]@);
            assert(gsv.skip(i as int)[0] == gsv[i as int]);
            assert(gsv.skip(i as int).drop_first() =~= gsv.skip(i as int + 1));
            assert(gsv.take(i as int + 1).drop_last() =~= gsv.take(i as int));
            assert(gsv.take(i as int + 1).last() == gsv[i as int]);
        }
        let w: usize = if chars[i].as_str().is_ascii() {
            1
        } else {
            2
        };
        assert(w == grapheme_weight(gsv[i as int]));
        if w <= remaining {
            filtered.append(chars[i].as_str());
            remaining = remaining - w;
            i += 1;
        } else {
            proof {
                assert(truncate_count(gsv.skip(i as int), remaining as int) == 0);
                assert(truncate_count(gsv, size as int) == i as int);
                assert(filtered@ == concat_graphemes(
                    graphemes_of(text@).take(truncate_count(graphemes_of(text@), size as int)),
                ));
                lemma_truncate_prefix(gsv, i as int, size as int, filtered@);
            }
            return filtered;
        }
    }
    proof {
        assert(gsv.skip(n as int) =~= Seq::<Seq<char>>::empty());
        assert(gsv.take(n as int) =~= gsv);
        lemma_truncate_prefix(gsv, n as int, size as int, filtered@);
    }
    filtered
}

proof fn lemma_truncate_prefix(gsv: Seq<Seq<char>>, k: int, size: int, out: Seq<char>)
    requires
        size >= 0,
        truncate_count(gsv, size) == k,
        0 <= k <= gsv.len(),
        out == concat_graphemes(gsv.take(k)),
    ensures
        out.len() <= concat_graphemes(gsv).len(),
        out == concat_graphemes(gsv).subrange(0, out.len() as int),
        total_weight(gsv) <= size ==> out == concat_graphemes(gsv),
{
    lemma_concat_graphemes_split(gsv, k);
    let whole = concat_graphemes(gsv);
    assert(whole == out + concat_graphemes(gsv.skip(k)));
    assert(out =~= whole.subrange(0, out.len() as int));
    lemma_truncate_count_all(gsv, size);
    if total_weight(gsv) <= size {
        assert(k == gsv.len());
        assert(gsv.take(k) =~= gsv);
    }
}

/// Whether a character has the Unicode whitespace property.
pub uninterp spec fn is_whitespace_char(c: char) -> bool;

/// Relies on std's `char::is_whitespace`: the Unicode whitespace property, a
/// function of the character alone.
#[verifier::external_body]
fn char_is_whitespace(c: char) -> (r: bool)
    ensures
        r == is_whitespace_char(c),
{
    c.is_whitespace()
}

/// How many leading characters are whitespace.
pub open spec fn leading_ws(s: Seq<char>) -> int
    decreases s.len(),
{
    if s.len() > 0 && is_whitespace_char(s[0]) {
        1 + leading_ws(s.drop_first())
    } else {
        0
    }
}

/// How many trailing characters are whitespace.
pub open spec fn trailing_ws(s: Seq<char>) -> int
    decreases s.len(),
{
    if s.len() > 0 && is_whitespace_char(s.last()) {
        1 + trailing_ws(s.drop_last())
    } else {
        0
    }
}

/// The text with leading and trailing whitespace removed.
pub open spec fn trim_spec(s: Seq<char>) -> Seq<char> {
    if leading_ws(s) == s.len() {
        Seq::empty()
    } else {
        s.subrange(leading_ws(s), s.len() - trailing_ws(s))
    }
}

proof fn lemma_leading_ws_at(s: Seq<char>, i: int)
    requires
        0 <= i <= s.len(),
        forall|j: int| 0 <= j < i ==> is_whitespace_char(#[trigger] s[j]),
        i < s.len() ==> !is_whitespace_char(s[i]),
    ensures
        leading_ws(s) == i,
    decreases i,
{
    if i > 0 {
        let d = s.drop_first();
        assert(forall|j: int| 0 <= j < d.len() ==> #[trigger] d[j] == s[j + 1]);
        assert(is_whitespace_char(s[0]));
        lemma_leading_ws_at(d, i - 1);
    }
}

proof fn lemma_trailing_ws_at(s: Seq<char>, i: int)
    requires
        0 <= i <= s.len(),
        forall|j: int| s.len() - i <= j < s.len() ==> is_whitespace_char(#[trigger] s[j]),
        i < s.len() ==> !is_whitespace_char(s[s.len() - i - 1]),
    ensures
        trailing_ws(s) == i,
    decreases i,
{
    if i > 0 {
        let d = s.drop_last();
        assert(forall|j: int| 0 <= j < d.len() ==> #[trigger] d[j] == s[j]);
        assert(is_whitespace_char(s.last()));
        lemma_trailing_ws_at(d, i - 1);
    }
}

/// The text with leading and trailing whitespace removed.
pub fn trim_str(s: &str) -> (r: String)
    ensures
        r@ == trim_spec(s@),
{
    let len = s.unicode_len();
    let mut lo: usize = 0;
    while lo < len && char_is_whitespace(s.get_char(lo))
        invariant
            len == s@.len(),
            0 <= lo <= len,
            forall|j: int| 0 <= j < lo ==> is_whitespace_char(#[trigger] s@[j]),
        decreases len - lo,
    {
        lo += 1;
    }
    proof {
        lemma_leading_ws_at(s@, lo as int);
    }
    if lo == len {
        return String::new();
    }
    let mut back: usize = 0;
    while back < len && char_is_whitespace(s.get_char(len - 1 - back))
        invariant
            len == s@.len(),
            0 <= back <= len,
            forall|j: int| len - back <= j < len ==> is_whitespace_char(#[trigger] s@[j]),
        decreases len - back,
    {
        back += 1;
    }
    proof {
        if lo >= len - back {
            assert(is_whitespace_char(s@[lo as int]));
        }
        lemma_trailing_ws_at(s@, back as int);
    }
    let out = s.substring_char(lo, len - back);
    out.to_owned()
}

/// The position of the first line feed, or the length where there is none.
pub open spec fn first_nl(s: Seq<char>) -> int
    decreases s.len(),
{
    if s.len() == 0 {
        0
    } else if s[0] == '\n' {
        0
    } else {
        1 + first_nl(s.drop_first())
    }
}

proof fn lemma_first_nl_bounds(s: Seq<char>)
    ensures
        0 <= first_nl(s) <= s.len(),
    decreases s.len(),
{
    if s.len() > 0 && s[0] != '\n' {
        lemma_first_nl_bounds(s.drop_first());
    }
}

proof fn lemma_first_nl_at(s: Seq<char>, i: int)
    requires
        0 <= i <= s.len(),
        forall|j: int| 0 <= j < i ==> (#[trigger] s[j]) != '\n',
        i < s.len() ==> s[i] == '\n',
    ensures
        first_nl(s) == i,
    decreases i,
{
    if i > 0 {
        let d = s.drop_first();
        assert(forall|j: int| 0 <= j < d.len() ==> #[trigger] d[j] == s[j + 1]);
        lemma_first_nl_at(d, i - 1);
    }
}

/// The lines of a text: split at each line feed, the final line ending
/// optional.
pub open spec fn line_split(s: Seq<char>) -> Seq<Seq<char>>
    decreases s.len(),
    via line_split_decreases
{
    if s.len() == 0 {
        Seq::empty()
    } else if first_nl(s) >= s.len() {
        seq![s]
    } else {
        seq![s.take(first_nl(s))] + line_split(s.skip(first_nl(s) + 1))
    }
}

#[via_fn]
proof fn line_split_decreases(s: Seq<char>) {
    lemma_first_nl_bounds(s);
}

/// Each line trimmed and given a single trailing space, concatenated.
pub open spec fn joined_lines(lines: Seq<Seq<char>>) -> Seq<char>
    decreases lines.len(),
{
    if lines.len() == 0 {
        Seq::empty()
    } else {
        joined_lines(lines.drop_last()) + trim_spec(lines.last()).push(' ')
    }
}

/// A text flattened to one line: each line trimmed, the lines joined with
/// single spaces, and the result trimmed.
pub open spec fn single_line_of(s: Seq<char>) -> Seq<char> {
    trim_spec(joined_lines(line_split(s)))
}

/// Flattens a text to a single line: line breaks become single spaces and
/// surrounding whitespace disappears.
pub fn make_text_single_line(text: &str) -> (r: String)
    ensures
        r@ == single_line_of(text@),
{
    let len = text.unicode_len();
    let mut out = String::new();
    let ghost mut done: Seq<Seq<char>> = Seq::empty();
    let mut seg_start: usize = 0;
    let mut i: usize = 0;
    proof {
        assert(text@.skip(0) =~= text@);
        assert(done + line_split(text@) =~= line_split(text@));
    }
    while i < len
        invariant
            len == text@.len(),
            0 <= seg_start <= i <= len,
            forall|j: int| seg_start <= j < i ==> (#[trigger] text@[j]) != '\n',
            line_split(text@) == done + line_split(text@.skip(seg_start as int)),
            out@ == joined_lines(done),
        decreases len - i,
    {
        if text.get_char(i) == '\n' {
            let segment = text.substring_char(seg_start, i);
            let trimmed = trim_str(segment);
            out.append(trimmed.as_str());
            out.append(" ");
            proof {
                let rest = text@.skip(seg_start as int);
                let seg = text@.subrange(seg_start as int, i as int);
                assert(forall|j: int|
                    0 <= j < rest.len() ==> #[trigger] rest[j] == text@[j + seg_start as int]);
                lemma_first_nl_at(rest, i - seg_start as int);
                assert(rest.take(i - seg_start as int) =~= seg);
                assert(rest.skip(i - seg_start as int + 1) =~= text@.skip(i as int + 1));
                assert(line_split(rest) == seq![seg] + line_split(text@.skip(i as int + 1)));
                let new_done = done.push(seg);
                assert(done + line_split(rest) =~= new_done + line_split(text@.skip(i as int + 1)));
                assert(new_done.drop_last() =~= done);
                assert(new_done.last() == seg);
                reveal_strlit(" ");
                assert(segment@ == seg);
                assert(trimmed@ == trim_spec(seg));
                assert(trim_spec(seg).push(' ') =~= trim_spec(seg) + " "@);
                assert(joined_lines(new_done) == joined_lines(done) + trim_spec(seg).push(' '));
                assert(out@ =~= joined_lines(done) + trim_spec(seg).push(' '));
                assert(out@ == joined_lines(new_done));
                done = new_done;
            }
            seg_start = i + 1;
        }
        i += 1;
    }
    if seg_start < len {
        let segment = text.substring_char(seg_start, len);
        let trimmed = trim_str(segment);
        out.append(trimmed.as_str());
        out.append(" ");
        proof {
            let rest = text@.skip(seg_start as int);
            assert(forall|j: int|
                0 <= j < rest.len() ==> #[trigger] rest[j] == text@[j + seg_start as int]);
            lemma_first_nl_at(rest, len - seg_start as int);
            assert(line_split(rest) == seq![rest]);
            assert(rest =~= text@.subrange(seg_start as int, len as int));
            let new_done = done.push(rest);
            assert(done + line_split(rest) =~= new_done);
            assert(new_done.drop_last() =~= done);
            assert(new_done.last() == rest);
            reveal_strlit(" ");
            assert(segment@ == rest);
            assert(trimmed@ == trim_spec(rest));
            assert(trim_spec(rest).push(' ') =~= trim_spec(rest) + " "@);
            assert(joined_lines(new_done) == joined_lines(done) + trim_spec(rest).push(' '));
            assert(out@ =~= joined_lines(done) + trim_spec(rest).push(' '));
            assert(out@ == joined_lines(new_done));
            done = new_done;
            assert(line_split(text@) == done);
        }
    } else {
        proof {
            assert(text@.skip(seg_start as int) =~= Seq::<char>::empty());
            assert(done + line_split(text@.skip(seg_start as int)) =~= done);
        }
    }
    trim_str(out.as_str())
}

} // verus!

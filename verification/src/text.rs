//! Character-level text operations that the contract logic is built on:
//! trimming, splitting at a separator, the local part of a qualified name,
//! ASCII case-insensitive comparison and substring search.

use vstd::prelude::*;
use vstd::std_specs::iter::IteratorSpec;
use vstd::utf8::{decode_utf8, valid_utf8};

verus! {

/// Whether `c` has Unicode's White_Space property, as `char::is_whitespace`
/// decides it.
pub uninterp spec fn white_space(c: char) -> bool;

/// `char::is_whitespace`: the contract names its result `white_space(c)`
/// and says nothing more of which characters are white space.
#[verifier::external_body]
pub(crate) fn is_white_space(c: char) -> (ws: bool)
    ensures
        ws == white_space(c),
{
    c.is_whitespace()
}

/// `s` without its leading white space.
pub open spec fn trim_start(s: Seq<char>) -> Seq<char>
    decreases s.len(),
{
    if s.len() > 0 && white_space(s[0]) {
        trim_start(s.drop_first())
    } else {
        s
    }
}

/// `s` without its trailing white space.
pub open spec fn trim_end(s: Seq<char>) -> Seq<char>
    decreases s.len(),
{
    if s.len() > 0 && white_space(s.last()) {
        trim_end(s.drop_last())
    } else {
        s
    }
}

/// `s` without leading and trailing white space, as `str::trim` gives it.
pub open spec fn trimmed(s: Seq<char>) -> Seq<char> {
    trim_end(trim_start(s))
}

/// The pieces of `s` between occurrences of `sep`, as `str::split` gives
/// them: empty pieces included, and one piece more than there are
/// separators.
pub open spec fn split(s: Seq<char>, sep: char) -> Seq<Seq<char>>
    decreases s.len(),
{
    if s.len() == 0 {
        seq![Seq::empty()]
    } else if s.last() == sep {
        split(s.drop_last(), sep).push(Seq::empty())
    } else {
        let pieces = split(s.drop_last(), sep);
        pieces.update(pieces.len() - 1, pieces.last().push(s.last()))
    }
}

/// What follows the last `sep` in `s`; all of `s` where there is none.
pub open spec fn after_last(s: Seq<char>, sep: char) -> Seq<char>
    decreases s.len(),
{
    if s.len() == 0 {
        s
    } else if s.last() == sep {
        Seq::empty()
    } else {
        after_last(s.drop_last(), sep).push(s.last())
    }
}

/// The code of `c` with an ASCII capital letter taken to its small letter.
pub open spec fn ascii_lower(c: char) -> u32 {
    let code = c as u32;
    if 65 <= code <= 90 {
        (code + 32) as u32
    } else {
        code
    }
}

/// `a` and `b` are the same text up to the case of ASCII letters.
pub open spec fn same_ignoring_ascii_case(a: Seq<char>, b: Seq<char>) -> bool {
    &&& a.len() == b.len()
    &&& forall|i: int| 0 <= i < a.len() ==> ascii_lower(#[trigger] a[i]) == ascii_lower(b[i])
}

/// `pattern` occurs in `text` at index `at`.
pub open spec fn occurs_at(text: Seq<char>, pattern: Seq<char>, at: int) -> bool {
    &&& 0 <= at
    &&& at + pattern.len() <= text.len()
    &&& text.subrange(at, at + pattern.len()) == pattern
}

/// `pattern` occurs somewhere in `text`.
pub open spec fn occurs_in(text: Seq<char>, pattern: Seq<char>) -> bool {
    exists|at: int| occurs_at(text, pattern, at)
}

/// The characters of `s`, in order.
pub fn chars_of(s: &str) -> (chars: Vec<char>)
    ensures
        chars@ == s@,
{
    broadcast use vstd::string::group_string_axioms;

    let mut iter = s.chars();
    let mut chars: Vec<char> = Vec::new();
    loop
        invariant
            iter.obeys_prophetic_iter_laws(),
            iter.decrease() is Some,
            chars@ + iter.remaining() == s@,
        ensures
            chars@ == s@,
        decreases iter.decrease()->0,
    {
        match iter.next() {
            Some(c) => {
                chars.push(c);
            },
            None => {
                assert(chars@ =~= chars@ + iter.remaining());
                break ;
            },
        }
    }
    chars
}

/// Whether `a` and `b` hold the same characters.
pub fn same_text(a: &str, b: &str) -> (same: bool)
    ensures
        same == (a@ == b@),
{
    let x = chars_of(a);
    let y = chars_of(b);
    if x.len() != y.len() {
        return false;
    }
    let mut i: usize = 0;
    while i < x.len()
        invariant
            x@ == a@,
            y@ == b@,
            x.len() == y.len(),
            i <= x.len(),
            forall|k: int| 0 <= k < i ==> x@[k] == y@[k],
        decreases x.len() - i,
    {
        if x[i] != y[i] {
            return false;
        }
        i = i + 1;
    }
    assert(x@ =~= y@);
    true
}

proof fn lemma_trim_start_skips(s: Seq<char>, i: int)
    requires
        0 <= i < s.len(),
        white_space(s[i]),
    ensures
        trim_start(s.subrange(i, s.len() as int)) == trim_start(s.subrange(i + 1, s.len() as int)),
{
    assert(s.subrange(i, s.len() as int).drop_first() =~= s.subrange(i + 1, s.len() as int));
}

proof fn lemma_trim_end_skips(s: Seq<char>, j: int)
    requires
        0 < j <= s.len(),
        white_space(s[j - 1]),
    ensures
        trim_end(s.subrange(0, j)) == trim_end(s.subrange(0, j - 1)),
{
    assert(s.subrange(0, j).drop_last() =~= s.subrange(0, j - 1));
}

/// `s` without leading and trailing white space.
pub fn trim(s: &str) -> (t: &str)
    ensures
        t@ == trimmed(s@),
{
    let chars = chars_of(s);
    let n = chars.len();
    let mut i: usize = 0;
    assert(s@.subrange(0, n as int) =~= s@);
    while i < n
        invariant
            chars@ == s@,
            n == chars.len(),
            i <= n,
            trim_start(s@) == trim_start(s@.subrange(i as int, n as int)),
        ensures
            i <= n,
            trim_start(s@) == trim_start(s@.subrange(i as int, n as int)),
            i == n || !white_space(s@[i as int]),
        decreases n - i,
    {
        if !is_white_space(chars[i]) {
            break ;
        }
        proof {
            lemma_trim_start_skips(s@, i as int);
        }
        i = i + 1;
    }
    let ghost rest = s@.subrange(i as int, n as int);
    assert(rest.len() > 0 ==> rest[0] == s@[i as int]);
    assert(trim_start(s@) == rest);
    assert(rest.subrange(0, rest.len() as int) =~= rest);
    let mut j: usize = n;
    while j > i
        invariant
            chars@ == s@,
            n == chars.len(),
            i <= j <= n,
            rest == s@.subrange(i as int, n as int),
            trim_end(rest) == trim_end(rest.subrange(0, j - i)),
        ensures
            i <= j <= n,
            trim_end(rest) == trim_end(rest.subrange(0, j - i)),
            j == i || !white_space(s@[j - 1]),
        decreases j,
    {
        if !is_white_space(chars[j - 1]) {
            break ;
        }
        proof {
            lemma_trim_end_skips(rest, j - i);
        }
        j = j - 1;
    }
    assert(j > i ==> rest.subrange(0, j - i).last() == s@[j - 1]);
    assert(trim_end(rest) == rest.subrange(0, j - i));
    assert(rest.subrange(0, j - i) =~= s@.subrange(i as int, j as int));
    s.substring_char(i, j)
}

proof fn lemma_split_step(s: Seq<char>, sep: char, i: int)
    requires
        0 <= i < s.len(),
    ensures
        split(s.take(i + 1), sep) == (if s[i] == sep {
            split(s.take(i), sep).push(Seq::empty())
        } else {
            split(s.take(i), sep).update(
                split(s.take(i), sep).len() - 1,
                split(s.take(i), sep).last().push(s[i]),
            )
        }),
{
    assert(s.take(i + 1).drop_last() =~= s.take(i));
}

proof fn lemma_split_nonempty(s: Seq<char>, sep: char)
    ensures
        split(s, sep).len() >= 1,
    decreases s.len(),
{
    if s.len() > 0 {
        lemma_split_nonempty(s.drop_last(), sep);
    }
}

/// The pieces of `s` between occurrences of `sep`.
pub fn split_on(s: &str, sep: char) -> (pieces: Vec<&str>)
    ensures
        pieces.len() == split(s@, sep).len(),
        pieces.len() >= 1,
        forall|k: int| 0 <= k < pieces.len() ==> #[trigger] pieces[k]@ == split(s@, sep)[k],
{
    proof {
        lemma_split_nonempty(s@, sep);
    }
    let chars = chars_of(s);
    let n = chars.len();
    let mut pieces: Vec<&str> = Vec::new();
    let mut start: usize = 0;
    let mut i: usize = 0;
    assert(s@.take(0) =~= Seq::<char>::empty());
    assert(s@.subrange(0, 0) =~= Seq::<char>::empty());
    while i < n
        invariant
            chars@ == s@,
            n == chars.len(),
            start <= i <= n,
            pieces.len() + 1 == split(s@.take(i as int), sep).len(),
            forall|k: int|
                0 <= k < pieces.len() ==> #[trigger] pieces[k]@ == split(s@.take(i as int), sep)[k],
            split(s@.take(i as int), sep).last() == s@.subrange(start as int, i as int),
        decreases n - i,
    {
        proof {
            lemma_split_step(s@, sep, i as int);
        }
        if chars[i] == sep {
            pieces.push(s.substring_char(start, i));
            start = i + 1;
            assert(s@.subrange(start as int, i + 1) =~= Seq::<char>::empty());
        } else {
            assert(s@.subrange(start as int, i + 1) =~= s@.subrange(start as int, i as int).push(
                s@[i as int],
            ));
        }
        i = i + 1;
    }
    assert(s@.take(n as int) =~= s@);
    pieces.push(s.substring_char(start, n));
    pieces
}

proof fn lemma_after_last_step(s: Seq<char>, sep: char, j: int)
    requires
        0 < j <= s.len(),
        s[j - 1] != sep,
    ensures
        after_last(s.take(j), sep) == after_last(s.take(j - 1), sep).push(s[j - 1]),
{
    assert(s.take(j).drop_last() =~= s.take(j - 1));
}

/// What follows the last `sep` in `s`, or all of `s`.
pub fn after_last_of(s: &str, sep: char) -> (tail: &str)
    ensures
        tail@ == after_last(s@, sep),
{
    let chars = chars_of(s);
    let n = chars.len();
    let mut j: usize = n;
    assert(s@.take(n as int) =~= s@);
    assert(s@.subrange(n as int, n as int) =~= Seq::<char>::empty());
    while j > 0
        invariant
            chars@ == s@,
            n == chars.len(),
            j <= n,
            after_last(s@, sep) == after_last(s@.take(j as int), sep) + s@.subrange(j as int, n as int),
        ensures
            j <= n,
            after_last(s@, sep) == after_last(s@.take(j as int), sep) + s@.subrange(j as int, n as int),
            j == 0 || s@[j - 1] == sep,
        decreases j,
    {
        if chars[j - 1] == sep {
            break ;
        }
        proof {
            lemma_after_last_step(s@, sep, j as int);
            assert(after_last(s@.take(j - 1), sep).push(s@[j - 1]) + s@.subrange(j as int, n as int)
                =~= after_last(s@.take(j - 1), sep) + s@.subrange(j - 1, n as int));
        }
        j = j - 1;
    }
    assert(j > 0 ==> s@.take(j as int).last() == s@[j - 1]);
    assert(after_last(s@.take(j as int), sep) =~= Seq::<char>::empty());
    assert(after_last(s@, sep) =~= s@.subrange(j as int, n as int));
    s.substring_char(j, n)
}

fn ascii_lower_code(c: char) -> (code: u32)
    ensures
        code == ascii_lower(c),
{
    let code = c as u32;
    if 65 <= code && code <= 90 {
        code + 32
    } else {
        code
    }
}

/// Whether `a` and `b` are the same text up to the case of ASCII letters.
pub fn eq_ignoring_ascii_case(a: &str, b: &str) -> (same: bool)
    ensures
        same == same_ignoring_ascii_case(a@, b@),
{
    let x = chars_of(a);
    let y = chars_of(b);
    if x.len() != y.len() {
        return false;
    }
    let mut i: usize = 0;
    while i < x.len()
        invariant
            x@ == a@,
            y@ == b@,
            x.len() == y.len(),
            i <= x.len(),
            forall|k: int| 0 <= k < i ==> ascii_lower(#[trigger] x@[k]) == ascii_lower(y@[k]),
        decreases x.len() - i,
    {
        if ascii_lower_code(x[i]) != ascii_lower_code(y[i]) {
            return false;
        }
        i = i + 1;
    }
    true
}

/// Whether `pattern` occurs at `at` in `text`.
fn matches_at(text: &Vec<char>, pattern: &Vec<char>, at: usize) -> (found: bool)
    requires
        at + pattern.len() <= text.len(),
    ensures
        found == occurs_at(text@, pattern@, at as int),
{
    let mut k: usize = 0;
    while k < pattern.len()
        invariant
            at + pattern.len() <= text.len(),
            k <= pattern.len(),
            forall|m: int| 0 <= m < k ==> text@[at + m] == pattern@[m],
        decreases pattern.len() - k,
    {
        if text[at + k] != pattern[k] {
            assert(text@.subrange(at as int, at + pattern.len())[k as int] != pattern@[k as int]);
            return false;
        }
        k = k + 1;
    }
    assert(text@.subrange(at as int, at + pattern.len()) =~= pattern@);
    true
}

/// Whether `pattern` occurs in `text`.
pub fn contains_text(text: &Vec<char>, pattern: &str) -> (found: bool)
    ensures
        found == occurs_in(text@, pattern@),
{
    let wanted = chars_of(pattern);
    if wanted.len() > text.len() {
        assert forall|at: int| !occurs_at(text@, pattern@, at) by {}
        return false;
    }
    let last = text.len() - wanted.len();
    let mut at: usize = 0;
    loop
        invariant
            wanted@ == pattern@,
            last == text.len() - wanted.len(),
            wanted.len() <= text.len(),
            at <= last,
            forall|a: int| 0 <= a < at ==> !occurs_at(text@, pattern@, a),
        decreases last - at,
    {
        if matches_at(text, &wanted, at) {
            assert(occurs_at(text@, pattern@, at as int));
            return true;
        }
        if at == last {
            assert forall|a: int| !occurs_at(text@, pattern@, a) by {}
            return false;
        }
        at = at + 1;
    }
}

/// The text of the error that `std::str::from_utf8` returns for `bytes`.
pub uninterp spec fn utf8_error_text(bytes: Seq<u8>) -> Seq<char>;

/// `std::str::from_utf8`, its error taken to the error's text. The contract
/// claims that it succeeds exactly on valid UTF-8, which it then decodes;
/// the text of its error is named `utf8_error_text(bytes)`.
#[verifier::external_body]
pub(crate) fn utf8_text(bytes: &[u8]) -> (text: Result<&str, String>)
    ensures
        text is Ok <==> valid_utf8(bytes@),
        text matches Ok(t) ==> t@ == decode_utf8(bytes@),
        text matches Err(message) ==> message@ == utf8_error_text(bytes@),
{
    std::str::from_utf8(bytes).map_err(|error| error.to_string())
}

/// How `{:?}` writes the text `text`: quoted and escaped.
pub uninterp spec fn debug_text(text: Seq<char>) -> Seq<char>;

/// `text` written with `{:?}`. The contract names the result
/// `debug_text(text)` and says nothing of its characters.
#[verifier::external_body]
pub(crate) fn debug_of(text: &str) -> (written: String)
    ensures
        written@ == debug_text(text@),
{
    format!("{:?}", text)
}

/// What follows the last `sep` holds no `sep`, and taking it again changes
/// nothing.
pub proof fn law_after_last_is_free_of_the_separator(s: Seq<char>, sep: char)
    ensures
        !after_last(s, sep).contains(sep),
        after_last(after_last(s, sep), sep) == after_last(s, sep),
    decreases s.len(),
{
    if s.len() > 0 && s.last() != sep {
        law_after_last_is_free_of_the_separator(s.drop_last(), sep);
        let earlier = after_last(s.drop_last(), sep);
        let whole = earlier.push(s.last());
        assert forall|k: int| 0 <= k < whole.len() implies whole[k] != sep by {
            if k < earlier.len() {
                assert(!earlier.contains(sep));
                assert(whole[k] == earlier[k]);
            }
        }
        assert(whole.drop_last() =~= earlier);
    }
}

/// A text without `sep` is one piece.
pub proof fn lemma_split_without_separator(s: Seq<char>, sep: char)
    requires
        !s.contains(sep),
    ensures
        split(s, sep) == seq![s],
    decreases s.len(),
{
    if s.len() > 0 {
        assert(s.last() == s[s.len() - 1]);
        assert(!s.drop_last().contains(sep)) by {
            assert forall|k: int| 0 <= k < s.drop_last().len() implies s.drop_last()[k] != sep by {
                assert(s.drop_last()[k] == s[k]);
            }
        }
        lemma_split_without_separator(s.drop_last(), sep);
        assert(s.drop_last().push(s.last()) =~= s);
        assert(seq![s.drop_last()].update(0, s.drop_last().push(s.last())) =~= seq![s]);
    } else {
        assert(s =~= Seq::<char>::empty());
    }
}

/// Two texts without `sep`, joined by it, split into the two.
pub proof fn lemma_split_pair(a: Seq<char>, b: Seq<char>, sep: char)
    requires
        !a.contains(sep),
        !b.contains(sep),
    ensures
        split(a + seq![sep] + b, sep) == seq![a, b],
    decreases b.len(),
{
    let s = a + seq![sep] + b;
    if b.len() == 0 {
        assert(s.drop_last() =~= a);
        lemma_split_without_separator(a, sep);
        assert(b =~= Seq::<char>::empty());
        assert(seq![a].push(Seq::<char>::empty()) =~= seq![a, b]);
    } else {
        let shorter = b.drop_last();
        assert(!shorter.contains(sep)) by {
            assert forall|k: int| 0 <= k < shorter.len() implies shorter[k] != sep by {
                assert(shorter[k] == b[k]);
            }
        }
        lemma_split_pair(a, shorter, sep);
        assert(s.drop_last() =~= a + seq![sep] + shorter);
        assert(s.last() == b[b.len() - 1]);
        assert(shorter.push(b.last()) =~= b);
        assert(seq![a, shorter].update(1, shorter.push(s.last())) =~= seq![a, b]);
    }
}

proof fn lemma_trim_start_shortens(s: Seq<char>)
    ensures
        trim_start(s).len() <= s.len(),
        s.len() > 0 && white_space(s[0]) ==> trim_start(s).len() < s.len(),
    decreases s.len(),
{
    if s.len() > 0 && white_space(s[0]) {
        lemma_trim_start_shortens(s.drop_first());
    }
}

proof fn lemma_trim_end_shortens(s: Seq<char>)
    ensures
        trim_end(s).len() <= s.len(),
    decreases s.len(),
{
    if s.len() > 0 && white_space(s.last()) {
        lemma_trim_end_shortens(s.drop_last());
    }
}

/// A non-empty text that trimming leaves as it is starts with a character
/// that is not white space.
pub proof fn lemma_trimmed_starts_without_white_space(s: Seq<char>)
    requires
        s.len() > 0,
        trimmed(s) == s,
    ensures
        !white_space(s[0]),
{
    lemma_trim_start_shortens(s);
    lemma_trim_end_shortens(trim_start(s));
}

/// No piece of a split holds the separator, and a text splits into one
/// piece exactly when it holds no separator.
pub proof fn law_split_pieces_are_free_of_the_separator(s: Seq<char>, sep: char)
    ensures
        forall|k: int| 0 <= k < split(s, sep).len() ==> !(#[trigger] split(s, sep)[k]).contains(sep),
        split(s, sep).len() == 1 <==> !s.contains(sep),
    decreases s.len(),
{
    lemma_split_nonempty(s, sep);
    if s.len() > 0 {
        let earlier = s.drop_last();
        law_split_pieces_are_free_of_the_separator(earlier, sep);
        lemma_split_nonempty(earlier, sep);
        let pieces = split(earlier, sep);
        let whole = split(s, sep);
        assert(s =~= earlier.push(s.last()));
        if earlier.contains(sep) {
            let m = choose|m: int| 0 <= m < earlier.len() && earlier[m] == sep;
            assert(s[m] == sep);
        }
        if s.contains(sep) && s.last() != sep {
            let m = choose|m: int| 0 <= m < s.len() && s[m] == sep;
            assert(m < earlier.len());
            assert(earlier[m] == sep);
        }
        if s.last() == sep {
            assert(s[s.len() - 1] == sep);
            assert forall|k: int| 0 <= k < whole.len() implies !(#[trigger] whole[k]).contains(sep) by {
                if k < pieces.len() {
                    assert(whole[k] == pieces[k]);
                } else {
                    assert(whole[k] =~= Seq::<char>::empty());
                }
            }
        } else {
            let last_piece = pieces.last().push(s.last());
            assert forall|k: int| 0 <= k < whole.len() implies !(#[trigger] whole[k]).contains(sep) by {
                if k < pieces.len() - 1 {
                    assert(whole[k] == pieces[k]);
                } else {
                    assert(whole[k] == last_piece);
                    assert(!pieces[pieces.len() - 1].contains(sep));
                    if last_piece.contains(sep) {
                        let m = choose|m: int| 0 <= m < last_piece.len() && last_piece[m] == sep;
                        assert(pieces.last()[m] == sep);
                    }
                }
            }
        }
    }
}

proof fn lemma_trim_start_is_a_suffix(s: Seq<char>)
    ensures
        trim_start(s) == s.subrange(s.len() - trim_start(s).len(), s.len() as int),
        trim_start(s).len() == 0 || !white_space(trim_start(s)[0]),
    decreases s.len(),
{
    lemma_trim_start_shortens(s);
    if s.len() > 0 && white_space(s[0]) {
        lemma_trim_start_is_a_suffix(s.drop_first());
        assert(s.drop_first().subrange(
            s.drop_first().len() - trim_start(s).len(),
            s.drop_first().len() as int,
        ) =~= s.subrange(s.len() - trim_start(s).len(), s.len() as int));
    } else {
        assert(s.subrange(0, s.len() as int) =~= s);
    }
}

proof fn lemma_trim_end_is_a_prefix(s: Seq<char>)
    ensures
        trim_end(s) == s.take(trim_end(s).len() as int),
        trim_end(s).len() == 0 || !white_space(trim_end(s).last()),
    decreases s.len(),
{
    lemma_trim_end_shortens(s);
    if s.len() > 0 && white_space(s.last()) {
        lemma_trim_end_is_a_prefix(s.drop_last());
        lemma_trim_end_shortens(s.drop_last());
        assert(s.drop_last().take(trim_end(s).len() as int) =~= s.take(trim_end(s).len() as int));
    } else {
        assert(s.take(s.len() as int) =~= s);
    }
}

/// Trimming twice changes nothing, and a trimmed text holds only
/// characters of the text.
pub proof fn law_trimming_is_idempotent(s: Seq<char>)
    ensures
        trimmed(trimmed(s)) == trimmed(s),
        forall|c: char| #[trigger] trimmed(s).contains(c) ==> s.contains(c),
{
    let t = trim_start(s);
    let u = trim_end(t);
    lemma_trim_start_is_a_suffix(s);
    lemma_trim_end_is_a_prefix(t);
    lemma_trim_end_is_a_prefix(u);
    lemma_trim_start_shortens(s);
    lemma_trim_end_shortens(t);
    if u.len() > 0 {
        assert(u[0] == t[0]);
    }
    assert(trim_start(u) == u);
    assert(trim_end(u) == u);
    assert forall|c: char| #[trigger] u.contains(c) implies s.contains(c) by {
        let m = choose|m: int| 0 <= m < u.len() && u[m] == c;
        assert(t[m] == c);
        assert(s[s.len() - t.len() + m] == c);
    }
}

/// What follows the last `sep` is the end of the text that a `sep`
/// precedes, or the whole text when it holds no `sep`.
pub proof fn law_after_last_is_the_end_after_the_last_separator(s: Seq<char>, sep: char)
    ensures
        after_last(s, sep).len() <= s.len(),
        after_last(s, sep) == s.subrange(s.len() - after_last(s, sep).len(), s.len() as int),
        after_last(s, sep).len() < s.len() ==> s[s.len() - after_last(s, sep).len() - 1] == sep,
        !s.contains(sep) ==> after_last(s, sep) == s,
    decreases s.len(),
{
    if s.len() == 0 {
        assert(s.subrange(0, 0) =~= s);
    } else if s.last() == sep {
        assert(s.subrange(s.len() as int, s.len() as int) =~= Seq::<char>::empty());
        assert(s[s.len() - 1] == sep);
    } else {
        let earlier = s.drop_last();
        law_after_last_is_the_end_after_the_last_separator(earlier, sep);
        let tail = after_last(earlier, sep);
        assert(forall|k: int| 0 <= k < tail.len() ==> tail[k] == earlier[earlier.len() - tail.len() + k]);
        assert(tail.push(s.last()) =~= s.subrange(s.len() - tail.len() - 1, s.len() as int));
        if tail.len() < earlier.len() {
            assert(s[s.len() - tail.len() - 2] == earlier[earlier.len() - tail.len() - 1]);
        }
        if !s.contains(sep) {
            assert(!earlier.contains(sep)) by {
                assert forall|k: int| 0 <= k < earlier.len() implies earlier[k] != sep by {
                    assert(earlier[k] == s[k]);
                }
            }
            assert(earlier.push(s.last()) =~= s);
        }
    }
}

/// `pieces` joined, with `sep` between each two.
pub open spec fn joined_with(pieces: Seq<Seq<char>>, sep: char) -> Seq<char>
    decreases pieces.len(),
{
    if pieces.len() == 0 {
        Seq::empty()
    } else if pieces.len() == 1 {
        pieces[0]
    } else {
        joined_with(pieces.drop_last(), sep) + seq![sep] + pieces.last()
    }
}

/// Joining the pieces of a split with the separator gives the text back.
pub proof fn law_split_pieces_join_back(s: Seq<char>, sep: char)
    ensures
        joined_with(split(s, sep), sep) == s,
    decreases s.len(),
{
    lemma_split_nonempty(s, sep);
    if s.len() == 0 {
        assert(split(s, sep)[0] =~= s);
    } else {
        let earlier = s.drop_last();
        law_split_pieces_join_back(earlier, sep);
        lemma_split_nonempty(earlier, sep);
        let pieces = split(earlier, sep);
        if s.last() == sep {
            let whole = pieces.push(Seq::empty());
            assert(whole.drop_last() =~= pieces);
            assert(joined_with(whole, sep) =~= s);
        } else {
            let whole = pieces.update(pieces.len() - 1, pieces.last().push(s.last()));
            if pieces.len() == 1 {
                assert(whole[0] =~= s);
            } else {
                assert(whole.drop_last() =~= pieces.drop_last());
                assert(joined_with(pieces, sep) == joined_with(pieces.drop_last(), sep) + seq![sep]
                    + pieces.last());
                assert(whole.last() == pieces.last().push(s.last()));
                assert(joined_with(whole, sep) == joined_with(pieces.drop_last(), sep) + seq![sep]
                    + whole.last());
                assert(s =~= earlier.push(s.last()));
                assert(joined_with(whole, sep) =~= s);
            }
        }
    }
}

/// Trimming removes white space from both ends and nothing else: the
/// trimmed text is the part of the text between a leading and a trailing
/// run of white space, and it neither starts nor ends with white space.
pub proof fn law_trimming_removes_only_surrounding_white_space(s: Seq<char>)
    ensures
        exists|start: int, end: int|
            #![trigger s.subrange(start, end)]
            0 <= start <= end <= s.len() && trimmed(s) == s.subrange(start, end) && (forall|k: int|
                0 <= k < start ==> white_space(#[trigger] s[k])) && (forall|k: int|
                end <= k < s.len() ==> white_space(#[trigger] s[k])),
        trimmed(s).len() > 0 ==> !white_space(trimmed(s)[0]) && !white_space(trimmed(s).last()),
{
    lemma_trim_start_leading(s);
    let t = trim_start(s);
    let start = s.len() - t.len();
    lemma_trim_start_shortens(s);
    lemma_trim_start_is_a_suffix(s);
    lemma_trim_end_trailing(t);
    lemma_trim_end_is_a_prefix(t);
    lemma_trim_end_shortens(t);
    let u = trim_end(t);
    let end = start + u.len();
    assert(u =~= s.subrange(start, end));
    assert forall|k: int| end <= k < s.len() implies white_space(#[trigger] s[k]) by {
        assert(s[k] == t[k - start]);
    }
    if u.len() > 0 {
        assert(u[0] == t[0]);
    }
}

proof fn lemma_trim_start_leading(s: Seq<char>)
    ensures
        forall|k: int| 0 <= k < s.len() - trim_start(s).len() ==> white_space(#[trigger] s[k]),
    decreases s.len(),
{
    lemma_trim_start_shortens(s);
    if s.len() > 0 && white_space(s[0]) {
        lemma_trim_start_leading(s.drop_first());
        assert forall|k: int| 0 <= k < s.len() - trim_start(s).len() implies white_space(#[trigger] s[k]) by {
            if k > 0 {
                assert(s[k] == s.drop_first()[k - 1]);
            }
        }
    }
}

proof fn lemma_trim_end_trailing(s: Seq<char>)
    ensures
        forall|k: int| trim_end(s).len() <= k < s.len() ==> white_space(#[trigger] s[k]),
    decreases s.len(),
{
    lemma_trim_end_shortens(s);
    if s.len() > 0 && white_space(s.last()) {
        lemma_trim_end_trailing(s.drop_last());
        assert forall|k: int| trim_end(s).len() <= k < s.len() implies white_space(#[trigger] s[k]) by {
            if k < s.len() - 1 {
                assert(s[k] == s.drop_last()[k]);
            }
        }
    }
}

/// `pattern` occurs in `text` exactly when `text` is some text, then
/// `pattern`, then some text.
pub proof fn law_an_occurrence_splits_the_text(text: Seq<char>, pattern: Seq<char>)
    ensures
        occurs_in(text, pattern) <==> exists|before: Seq<char>, after: Seq<char>|
            #[trigger] (before + pattern + after) == text,
{
    if occurs_in(text, pattern) {
        let at = choose|at: int| occurs_at(text, pattern, at);
        let before = text.subrange(0, at);
        let after = text.subrange(at + pattern.len(), text.len() as int);
        assert(before + pattern + after =~= text);
    }
    if exists|before: Seq<char>, after: Seq<char>| #[trigger] (before + pattern + after) == text {
        let (before, after) = choose|before: Seq<char>, after: Seq<char>|
            #[trigger] (before + pattern + after) == text;
        assert(text.subrange(before.len() as int, (before.len() + pattern.len()) as int) =~= pattern);
        assert(occurs_at(text, pattern, before.len() as int));
    }
}

/// Two characters are the same up to ASCII case exactly when their codes
/// are equal or are those of the capital (`A` to `Z`) and small forms of
/// one ASCII letter.
pub open spec fn same_letter_ignoring_case(x: char, y: char) -> bool {
    let (p, q) = (x as u32, y as u32);
    ||| p == q
    ||| (65 <= p <= 90 && q == p + 32)
    ||| (65 <= q <= 90 && p == q + 32)
}

/// Texts are the same up to ASCII case exactly when they are equally long
/// and, position by position, their characters are equal or the capital
/// and small forms of one ASCII letter.
pub proof fn law_ascii_case_is_all_that_is_ignored(a: Seq<char>, b: Seq<char>)
    ensures
        same_ignoring_ascii_case(a, b) <==> (a.len() == b.len() && forall|i: int|
            0 <= i < a.len() ==> same_letter_ignoring_case(#[trigger] a[i], b[i])),
{
    assert forall|x: char, y: char| #[trigger] ascii_lower(x) == #[trigger] ascii_lower(y) <==> same_letter_ignoring_case(x, y) by {
    }
}

} // verus!

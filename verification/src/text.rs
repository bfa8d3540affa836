//! Character-level text handling: whitespace, splitting, trimming, and the decimal
//! reading and writing of unsigned numbers.

use vstd::prelude::*;
use vstd::string::*;

verus! {

/// The characters of Unicode's `White_Space` property, the set that `char::is_whitespace` tests.
pub open spec fn is_ws(c: char) -> bool {
    let u = c as u32;
    ||| 0x9 <= u <= 0xd
    ||| u == 0x20
    ||| u == 0x85
    ||| u == 0xa0
    ||| u == 0x1680
    ||| 0x2000 <= u <= 0x200a
    ||| u == 0x2028
    ||| u == 0x2029
    ||| u == 0x202f
    ||| u == 0x205f
    ||| u == 0x3000
}

/// Whether `c` is whitespace (as `char::is_whitespace` tells).
pub fn is_whitespace(c: char) -> (r: bool)
    ensures
        r == is_ws(c),
{
    let u = c as u32;
    (0x9 <= u && u <= 0xd) || u == 0x20 || u == 0x85 || u == 0xa0 || u == 0x1680 || (0x2000 <= u
        && u <= 0x200a) || u == 0x2028 || u == 0x2029 || u == 0x202f || u == 0x205f || u == 0x3000
}

/// The characters of a string slice, in order.
pub fn chars_of(s: &str) -> (r: Vec<char>)
    ensures
        r@ == s@,
{
    let n = s.unicode_len();
    let mut out: Vec<char> = Vec::new();
    let mut i: usize = 0;
    while i < n
        invariant
            n == s@.len(),
            i <= n,
            out@ == s@.take(i as int),
        decreases n - i,
    {
        out.push(s.get_char(i));
        i = i + 1;
        assert(out@ =~= s@.take(i as int));
    }
    assert(out@ =~= s@);
    out
}

/// Appends the characters of `s` to `out`.
pub fn push_str(out: &mut Vec<char>, s: &str)
    ensures
        final(out)@ == old(out)@ + s@,
{
    let n = s.unicode_len();
    let mut i: usize = 0;
    while i < n
        invariant
            n == s@.len(),
            i <= n,
            out@ == old(out)@ + s@.take(i as int),
        decreases n - i,
    {
        out.push(s.get_char(i));
        i = i + 1;
        assert(out@ =~= old(out)@ + s@.take(i as int));
    }
    assert(s@.take(n as int) =~= s@);
}

/// Appends the characters of `s` to `out`.
pub fn push_chars(out: &mut Vec<char>, s: &Vec<char>)
    ensures
        final(out)@ == old(out)@ + s@,
{
    let mut i: usize = 0;
    while i < s.len()
        invariant
            i <= s@.len(),
            out@ == old(out)@ + s@.take(i as int),
        decreases s@.len() - i,
    {
        out.push(s[i]);
        i = i + 1;
        assert(out@ =~= old(out)@ + s@.take(i as int));
    }
    assert(s@.take(s@.len() as int) =~= s@);
}

/// Builds a `String` from its characters, through `FromIterator<char>` for `String`.
#[verifier::external_body]
pub(crate) fn string_from_chars(v: &Vec<char>) -> (r: String)
    ensures
        r@ == v@,
{
    v.iter().collect::<String>()
}

/// What `str::to_lowercase` gives for a string that holds a character outside ASCII
/// (Unicode's lower-case mapping).
pub uninterp spec fn spec_to_lowercase(s: Seq<char>) -> Seq<char>;

pub open spec fn is_ascii_char(c: char) -> bool {
    (c as u32) < 128
}

pub open spec fn all_ascii(s: Seq<char>) -> bool {
    forall|i: int| 0 <= i < s.len() ==> is_ascii_char(#[trigger] s[i])
}

/// An ASCII upper-case letter lowered; any other character unchanged.
pub open spec fn ascii_lower(c: char) -> char {
    if 'A' as u32 <= c as u32 <= 'Z' as u32 {
        ((c as u32) + 32) as char
    } else {
        c
    }
}

/// What `str::to_lowercase` gives: on ASCII text each letter lowered one for one (as
/// `str::to_ascii_lowercase` does), otherwise Unicode's mapping.
pub open spec fn lowercase(s: Seq<char>) -> Seq<char> {
    if all_ascii(s) {
        s.map_values(|c: char| ascii_lower(c))
    } else {
        spec_to_lowercase(s)
    }
}

/// Lower-cases a string through `str::to_lowercase`. Its documentation defines lower case by
/// Unicode's `Lowercase` property, and `str::to_ascii_lowercase` points to it as the function
/// that lowers ASCII letters as well as the others; on ASCII text the two agree. What it gives
/// for other text is left unsaid here (`spec_to_lowercase`).
#[verifier::external_body]
pub(crate) fn to_lowercase(s: &str) -> (r: String)
    ensures
        all_ascii(s@) ==> r@ == s@.map_values(|c: char| ascii_lower(c)),
        !all_ascii(s@) ==> r@ == spec_to_lowercase(s@),
{
    s.to_lowercase()
}

/// Whether two character sequences are equal.
pub fn chars_eq(a: &[char], b: &[char]) -> (r: bool)
    ensures
        r == (a@ == b@),
{
    if a.len() != b.len() {
        return false;
    }
    let mut i: usize = 0;
    while i < a.len()
        invariant
            a@.len() == b@.len(),
            i <= a@.len(),
            forall|j: int| 0 <= j < i ==> a@[j] == b@[j],
        decreases a@.len() - i,
    {
        if a[i] != b[i] {
            return false;
        }
        i = i + 1;
    }
    assert(a@ =~= b@);
    true
}

/// Whether `c` occurs in `s`.
pub fn contains_char(s: &[char], c: char) -> (r: bool)
    ensures
        r == s@.contains(c),
{
    let mut i: usize = 0;
    while i < s.len()
        invariant
            i <= s@.len(),
            forall|j: int| 0 <= j < i ==> s@[j] != c,
        decreases s@.len() - i,
    {
        if s[i] == c {
            assert(s@[i as int] == c);
            return true;
        }
        i = i + 1;
    }
    false
}

/// `s` holds `sep` starting at position `i`.
pub open spec fn occurs_at(s: Seq<char>, sep: Seq<char>, i: int) -> bool {
    0 <= i && i + sep.len() <= s.len() && s.subrange(i, i + sep.len()) == sep
}

/// `s` holds `sep` somewhere (as `str::contains` with a string pattern).
pub open spec fn contains_seq(s: Seq<char>, sep: Seq<char>) -> bool {
    exists|i: int| #[trigger] occurs_at(s, sep, i)
}

fn occurs_at_exec(s: &[char], sep: &[char], i: usize) -> (r: bool)
    ensures
        r == occurs_at(s@, sep@, i as int),
{
    if i > s.len() || sep.len() > s.len() - i {
        return false;
    }
    let mut k: usize = 0;
    while k < sep.len()
        invariant
            i + sep@.len() <= s@.len(),
            s@.len() <= usize::MAX,
            k <= sep@.len(),
            forall|j: int| 0 <= j < k ==> s@[i + j] == sep@[j],
        decreases sep@.len() - k,
    {
        if s[i + k] != sep[k] {
            assert(s@.subrange(i as int, i + sep@.len())[k as int] != sep@[k as int]);
            return false;
        }
        k = k + 1;
    }
    assert(s@.subrange(i as int, i + sep@.len()) =~= sep@);
    true
}

/// Whether `sep` occurs in `s`.
pub fn contains_chars(s: &[char], sep: &[char]) -> (r: bool)
    ensures
        r == contains_seq(s@, sep@),
{
    let mut i: usize = 0;
    while i < s.len()
        invariant
            i <= s@.len(),
            forall|j: int| 0 <= j < i ==> !occurs_at(s@, sep@, j),
        decreases s@.len() - i,
    {
        if occurs_at_exec(s, sep, i) {
            return true;
        }
        i = i + 1;
    }
    if occurs_at_exec(s, sep, i) {
        return true;
    }
    assert forall|j: int| !occurs_at(s@, sep@, j) by {
        if 0 <= j && j + sep@.len() <= s@.len() && j > s@.len() {
        }
    }
    false
}

/// The pieces of `s` between the non-overlapping occurrences of `sep`, found from the left
/// (as `str::split` with a string or character pattern yields them).
pub open spec fn split_on(s: Seq<char>, sep: Seq<char>) -> Seq<Seq<char>>
    decreases s.len(),
{
    if s.len() == 0 {
        seq![Seq::<char>::empty()]
    } else if sep.len() > 0 && occurs_at(s, sep, 0) {
        seq![Seq::<char>::empty()] + split_on(s.skip(sep.len() as int), sep)
    } else {
        let rest = split_on(s.drop_first(), sep);
        rest.update(0, seq![s[0]] + rest[0])
    }
}

/// Splitting gives at least one piece.
pub proof fn lemma_split_on_nonempty(s: Seq<char>, sep: Seq<char>)
    ensures
        split_on(s, sep).len() >= 1,
    decreases s.len(),
{
    if s.len() == 0 {
    } else if sep.len() > 0 && occurs_at(s, sep, 0) {
        lemma_split_on_nonempty(s.skip(sep.len() as int), sep);
    } else {
        lemma_split_on_nonempty(s.drop_first(), sep);
    }
}

/// The views of a sequence of character vectors.
pub open spec fn views(v: Seq<Vec<char>>) -> Seq<Seq<char>> {
    v.map_values(|x: Vec<char>| x@)
}

/// `w` put in front of the first piece of `r`.
pub open spec fn prefix_first(w: Seq<char>, r: Seq<Seq<char>>) -> Seq<Seq<char>> {
    r.update(0, w + r[0])
}

/// Splits `s` at every occurrence of `sep`, as `str::split` does.
pub fn split_chars(s: &[char], sep: &[char]) -> (r: Vec<Vec<char>>)
    requires
        sep@.len() > 0,
    ensures
        views(r@) == split_on(s@, sep@),
{
    let mut pieces: Vec<Vec<char>> = Vec::new();
    let mut cur: Vec<char> = Vec::new();
    let mut i: usize = 0;
    proof {
        lemma_split_on_nonempty(s@, sep@);
        assert(s@.skip(0) =~= s@);
        assert(prefix_first(cur@, split_on(s@, sep@)) =~= split_on(s@, sep@));
        assert(views(pieces@) + split_on(s@, sep@) =~= split_on(s@, sep@));
    }
    while i < s.len()
        invariant
            sep@.len() > 0,
            i <= s@.len(),
            split_on(s@, sep@) == views(pieces@) + prefix_first(cur@, split_on(s@.skip(i as int), sep@)),
        decreases s@.len() - i,
    {
        let ghost rest = s@.skip(i as int);
        proof {
            lemma_split_on_nonempty(rest, sep@);
        }
        if occurs_at_exec(s, sep, i) {
            proof {
                assert(rest.subrange(0, sep@.len() as int) =~= s@.subrange(i as int, i + sep@.len()));
                assert(occurs_at(rest, sep@, 0));
                assert(rest.skip(sep@.len() as int) =~= s@.skip(i + sep@.len()));
                lemma_split_on_nonempty(s@.skip(i + sep@.len()), sep@);
            }
            let ghost old_pieces = pieces@;
            let ghost old_cur = cur@;
            pieces.push(cur);
            cur = Vec::new();
            i = i + sep.len();
            proof {
                let r2 = split_on(s@.skip(i as int), sep@);
                assert(split_on(rest, sep@) == seq![Seq::<char>::empty()] + r2);
                assert(prefix_first(old_cur, seq![Seq::<char>::empty()] + r2) =~= seq![old_cur] + r2);
                assert(prefix_first(cur@, r2) =~= r2);
                assert(views(pieces@) =~= views(old_pieces).push(old_cur));
                assert(views(old_pieces) + (seq![old_cur] + r2) =~= views(pieces@) + r2);
            }
        } else {
            proof {
                if sep@.len() > 0 && occurs_at(rest, sep@, 0) {
                    assert(rest.subrange(0, sep@.len() as int) =~= s@.subrange(i as int, i + sep@.len()));
                }
                assert(rest.drop_first() =~= s@.skip(i + 1));
                lemma_split_on_nonempty(s@.skip(i + 1), sep@);
            }
            let ghost old_cur = cur@;
            let c = s[i];
            cur.push(c);
            i = i + 1;
            proof {
                let r2 = split_on(s@.skip(i as int), sep@);
                assert(split_on(rest, sep@) == r2.update(0, seq![c] + r2[0]));
                assert(cur@ =~= old_cur + seq![c]);
                assert(old_cur + (seq![c] + r2[0]) =~= cur@ + r2[0]);
                assert(prefix_first(old_cur, r2.update(0, seq![c] + r2[0])) =~= prefix_first(cur@, r2));
            }
        }
    }
    proof {
        assert(s@.skip(i as int) =~= Seq::<char>::empty());
        assert(prefix_first(cur@, seq![Seq::<char>::empty()]) =~= seq![cur@]);
    }
    let ghost old_pieces = pieces@;
    pieces.push(cur);
    proof {
        assert(views(pieces@) =~= views(old_pieces) + seq![views(pieces@).last()]);
    }
    pieces
}

/// The whitespace-separated words of `s` (as `str::split_whitespace` yields them).
pub open spec fn split_ws(s: Seq<char>) -> Seq<Seq<char>>
    decreases s.len(),
{
    if s.len() == 0 {
        seq![]
    } else {
        let rest = split_ws(s.drop_first());
        if is_ws(s[0]) {
            rest
        } else if s.len() > 1 && !is_ws(s[1]) {
            rest.update(0, seq![s[0]] + rest[0])
        } else {
            seq![seq![s[0]]] + rest
        }
    }
}

/// `w` holds no whitespace.
pub open spec fn no_ws(w: Seq<char>) -> bool {
    forall|j: int| 0 <= j < w.len() ==> !is_ws(#[trigger] w[j])
}

/// A word followed by whitespace (or nothing) is the first word.
pub proof fn lemma_split_ws_word(w: Seq<char>, t: Seq<char>)
    requires
        w.len() > 0,
        no_ws(w),
        t.len() == 0 || is_ws(t[0]),
    ensures
        split_ws(w + t) == seq![w] + split_ws(t),
    decreases w.len(),
{
    let x = w + t;
    assert(x.drop_first() =~= w.drop_first() + t);
    if w.len() == 1 {
        assert(w.drop_first() + t =~= t);
        assert(x[0] == w[0]);
        assert(seq![x[0]] =~= w);
    } else {
        lemma_split_ws_word(w.drop_first(), t);
        assert(x[1] == w[1]);
        assert(!is_ws(w[1]));
        assert(seq![w[0]] + w.drop_first() =~= w);
        assert((seq![w.drop_first()] + split_ws(t)).update(0, seq![x[0]] + w.drop_first()) =~= seq![w]
            + split_ws(t));
    }
}

/// Splits `s` into its whitespace-separated words, as `str::split_whitespace` does.
pub fn split_whitespace(s: &[char]) -> (r: Vec<Vec<char>>)
    ensures
        views(r@) == split_ws(s@),
        forall|k: int| 0 <= k < r@.len() ==> (#[trigger] r@[k])@.len() > 0,
{
    let mut words: Vec<Vec<char>> = Vec::new();
    let mut cur: Vec<char> = Vec::new();
    let mut i: usize = 0;
    proof {
        assert(cur@ + s@.skip(0) =~= s@);
        assert(views(words@) + split_ws(s@) =~= split_ws(s@));
    }
    while i < s.len()
        invariant
            i <= s@.len(),
            no_ws(cur@),
            split_ws(s@) == views(words@) + split_ws(cur@ + s@.skip(i as int)),
            forall|k: int| 0 <= k < words@.len() ==> (#[trigger] words@[k])@.len() > 0,
        decreases s@.len() - i,
    {
        let c = s[i];
        let ghost t = s@.skip(i as int);
        proof {
            assert(t[0] == c);
            assert(t.drop_first() =~= s@.skip(i + 1));
        }
        if is_whitespace(c) {
            if cur.len() > 0 {
                proof {
                    lemma_split_ws_word(cur@, t);
                }
                let ghost old_words = words@;
                let ghost old_cur = cur@;
                words.push(cur);
                cur = Vec::new();
                proof {
                    assert(cur@ + s@.skip(i + 1) =~= t.drop_first());
                    assert(views(words@) =~= views(old_words).push(old_cur));
                    assert(views(old_words) + (seq![old_cur] + split_ws(t)) =~= views(words@)
                        + split_ws(t));
                }
            } else {
                proof {
                    assert(cur@ + t =~= t);
                    assert(cur@ + s@.skip(i + 1) =~= t.drop_first());
                }
            }
        } else {
            let ghost old_cur = cur@;
            cur.push(c);
            proof {
                assert(old_cur + t =~= cur@ + s@.skip(i + 1));
            }
        }
        i = i + 1;
    }
    proof {
        assert(s@.skip(i as int) =~= Seq::<char>::empty());
        assert(cur@ + s@.skip(i as int) =~= cur@);
    }
    if cur.len() > 0 {
        proof {
            lemma_split_ws_word(cur@, Seq::<char>::empty());
            assert(cur@ + Seq::<char>::empty() =~= cur@);
        }
        let ghost old_words = words@;
        let ghost old_cur = cur@;
        words.push(cur);
        proof {
            assert(views(words@) =~= views(old_words) + seq![old_cur]);
        }
    } else {
        proof {
            assert(cur@ =~= Seq::<char>::empty());
            assert(views(words@) + seq![] =~= views(words@));
        }
    }
    words
}

/// `s` without its leading whitespace.
pub open spec fn trim_start(s: Seq<char>) -> Seq<char>
    decreases s.len(),
{
    if s.len() > 0 && is_ws(s[0]) {
        trim_start(s.drop_first())
    } else {
        s
    }
}

/// `s` without its trailing whitespace.
pub open spec fn trim_end(s: Seq<char>) -> Seq<char>
    decreases s.len(),
{
    if s.len() > 0 && is_ws(s.last()) {
        trim_end(s.drop_last())
    } else {
        s
    }
}

/// `s` without leading and trailing whitespace (as `str::trim` gives it).
pub open spec fn trim(s: Seq<char>) -> Seq<char> {
    trim_end(trim_start(s))
}

proof fn lemma_trim_start_result(s: Seq<char>)
    ensures
        trim_start(s).len() == 0 || !is_ws(trim_start(s)[0]),
    decreases s.len(),
{
    if s.len() > 0 && is_ws(s[0]) {
        lemma_trim_start_result(s.drop_first());
    }
}

proof fn lemma_trim_end_result(s: Seq<char>)
    ensures
        trim_end(s).len() == 0 || !is_ws(trim_end(s).last()),
        trim_end(s).len() <= s.len(),
        forall|i: int| 0 <= i < trim_end(s).len() ==> trim_end(s)[i] == s[i],
    decreases s.len(),
{
    if s.len() > 0 && is_ws(s.last()) {
        lemma_trim_end_result(s.drop_last());
        assert forall|i: int| 0 <= i < trim_end(s).len() implies trim_end(s)[i] == s[i] by {
            assert(s.drop_last()[i] == s[i]);
        }
    }
}

/// Trimming twice trims no more than trimming once.
pub proof fn lemma_trim_idempotent(s: Seq<char>)
    ensures
        trim(trim(s)) == trim(s),
{
    let a = trim_start(s);
    let t = trim_end(a);
    lemma_trim_start_result(s);
    lemma_trim_end_result(a);
    if t.len() > 0 {
        assert(t[0] == a[0]);
    }
    assert(trim_start(t) == t);
    assert(trim_end(t) == t);
}

/// Removes leading and trailing whitespace, as `str::trim` does.
pub fn trim_chars(s: &[char]) -> (r: Vec<char>)
    ensures
        r@ == trim(s@),
{
    let mut a: usize = 0;
    assert(s@.skip(0) =~= s@);
    while a < s.len() && is_whitespace(s[a])
        invariant
            a <= s@.len(),
            trim_start(s@) == trim_start(s@.skip(a as int)),
        decreases s@.len() - a,
    {
        assert(s@.skip(a as int).drop_first() =~= s@.skip(a + 1));
        a = a + 1;
    }
    let ghost t = s@.skip(a as int);
    assert(trim_start(s@) == t);
    let mut b: usize = s.len();
    assert(t.take(t.len() as int) =~= t);
    while b > a && is_whitespace(s[b - 1])
        invariant
            a <= b <= s@.len(),
            t == s@.skip(a as int),
            trim_end(t) == trim_end(t.take(b - a)),
        decreases b,
    {
        assert(t.take(b - a).drop_last() =~= t.take(b - 1 - a));
        assert(t.take(b - a).last() == s@[b - 1]);
        b = b - 1;
    }
    let mut out: Vec<char> = Vec::new();
    let mut k: usize = a;
    while k < b
        invariant
            a <= k <= b <= s@.len(),
            out@ == s@.subrange(a as int, k as int),
        decreases b - k,
    {
        out.push(s[k]);
        k = k + 1;
        assert(out@ =~= s@.subrange(a as int, k as int));
    }
    assert(out@ =~= t.take(b - a));
    out
}

pub open spec fn is_digit(c: char) -> bool {
    '0' as u32 <= c as u32 <= '9' as u32
}

pub open spec fn digit_value(c: char) -> nat {
    (c as u32 - '0' as u32) as nat
}

pub open spec fn all_digits(s: Seq<char>) -> bool {
    forall|j: int| 0 <= j < s.len() ==> is_digit(#[trigger] s[j])
}

/// The number that a run of decimal digits denotes.
pub open spec fn decimal_value(s: Seq<char>) -> nat
    decreases s.len(),
{
    if s.len() == 0 {
        0
    } else {
        decimal_value(s.drop_last()) * 10 + digit_value(s.last())
    }
}

/// What `u32::from_str` gives: an optional `+`, then one or more decimal digits, the value
/// fitting in `u32`.
pub open spec fn parse_u32(s: Seq<char>) -> Option<u32> {
    let d = if s.len() > 0 && s[0] == '+' {
        s.drop_first()
    } else {
        s
    };
    if d.len() > 0 && all_digits(d) && decimal_value(d) <= u32::MAX {
        Some(decimal_value(d) as u32)
    } else {
        None
    }
}

proof fn lemma_decimal_prefix_grows(s: Seq<char>, i: int)
    requires
        0 <= i <= s.len(),
        all_digits(s),
    ensures
        decimal_value(s.take(i)) <= decimal_value(s),
    decreases s.len() - i,
{
    if i < s.len() {
        lemma_decimal_prefix_grows(s, i + 1);
        assert(s.take(i + 1).drop_last() =~= s.take(i));
    } else {
        assert(s.take(i) =~= s);
    }
}

/// Reads an unsigned decimal number, as `u32::from_str` does.
pub fn parse_u32_chars(s: &[char]) -> (r: Option<u32>)
    ensures
        r == parse_u32(s@),
{
    let start: usize = if s.len() > 0 && s[0] == '+' {
        1
    } else {
        0
    };
    let ghost d = s@.skip(start as int);
    proof {
        if s@.len() > 0 && s@[0] == '+' {
            assert(d =~= s@.drop_first());
        } else {
            assert(d =~= s@);
        }
    }
    if start >= s.len() {
        return None;
    }
    let mut acc: u64 = 0;
    let mut i: usize = start;
    assert(d.take(0) =~= Seq::<char>::empty());
    while i < s.len()
        invariant
            start <= i <= s@.len(),
            d == s@.skip(start as int),
            d == (if s@.len() > 0 && s@[0] == '+' {
                s@.drop_first()
            } else {
                s@
            }),
            all_digits(d.take(i - start)),
            acc == decimal_value(d.take(i - start)),
            acc <= u32::MAX,
        decreases s@.len() - i,
    {
        let c = s[i];
        let cu = c as u32;
        if cu < '0' as u32 || cu > '9' as u32 {
            proof {
                assert(d[i - start] == c);
                assert(!is_digit(d[i - start]));
                assert(!all_digits(d));
            }
            return None;
        }
        let ghost prev = d.take(i - start);
        let next = acc * 10 + (cu - '0' as u32) as u64;
        proof {
            assert(d.take(i - start + 1).drop_last() =~= prev);
            assert(d.take(i - start + 1).last() == c);
        }
        if next > u32::MAX as u64 {
            proof {
                if all_digits(d) {
                    lemma_decimal_prefix_grows(d, i - start + 1);
                }
            }
            return None;
        }
        acc = next;
        i = i + 1;
    }
    assert(d.take(i - start) =~= d);
    Some(acc as u32)
}

pub open spec fn digit_char(d: nat) -> char {
    (('0' as u32) + d) as char
}

/// The decimal digits of `n` (as `{}` formats an unsigned number).
pub open spec fn decimal(n: nat) -> Seq<char>
    decreases n,
{
    if n < 10 {
        seq![digit_char(n)]
    } else {
        decimal(n / 10).push(digit_char(n % 10))
    }
}

/// The decimal digits of `n`, zero-padded to two places (as `{:02}` formats it).
pub open spec fn pad2(n: nat) -> Seq<char> {
    if n < 10 {
        seq!['0'] + decimal(n)
    } else {
        decimal(n)
    }
}

fn digit_to_char(d: u32) -> (c: char)
    requires
        d < 10,
    ensures
        c == digit_char(d as nat),
{
    let b: u8 = (48 + d) as u8;
    b as char
}

/// Appends the decimal digits of `n` to `out`.
pub fn push_decimal(out: &mut Vec<char>, n: u32)
    ensures
        final(out)@ == old(out)@ + decimal(n as nat),
    decreases n,
{
    if n >= 10 {
        push_decimal(out, n / 10);
    }
    let c = digit_to_char(n % 10);
    out.push(c);
    proof {
        if n < 10 {
            assert(final(out)@ =~= old(out)@ + seq![c]);
        } else {
            assert(decimal(n as nat) == decimal((n / 10) as nat).push(digit_char((n % 10) as nat)));
        }
    }
}

/// Appends the decimal digits of `n`, zero-padded to two places, to `out`.
pub fn push_pad2(out: &mut Vec<char>, n: u32)
    ensures
        final(out)@ == old(out)@ + pad2(n as nat),
{
    if n < 10 {
        out.push('0');
    }
    let ghost mid = out@;
    push_decimal(out, n);
    proof {
        if n < 10 {
            assert(mid == old(out)@.push('0'));
        } else {
            assert(mid == old(out)@);
        }
    }
}

} // verus!

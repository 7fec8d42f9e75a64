//! Text as sequences of characters: trimming, ordering, replacing and
//! writing numbers.
use vstd::prelude::*;

verus! {

/// The characters with the Unicode property `White_Space`.
pub open spec fn is_white_space(c: char) -> bool {
    ||| '\u{9}' <= c <= '\u{d}'
    ||| c == '\u{20}'
    ||| c == '\u{85}'
    ||| c == '\u{a0}'
    ||| c == '\u{1680}'
    ||| '\u{2000}' <= c <= '\u{200a}'
    ||| c == '\u{2028}'
    ||| c == '\u{2029}'
    ||| c == '\u{202f}'
    ||| c == '\u{205f}'
    ||| c == '\u{3000}'
}

/// `s` without the white space it starts with.
pub open spec fn trimmed_start(s: Seq<char>) -> Seq<char>
    decreases s.len(),
{
    if s.len() > 0 && is_white_space(s.first()) {
        trimmed_start(s.drop_first())
    } else {
        s
    }
}

/// `s` without the white space it ends with.
pub open spec fn trimmed_end(s: Seq<char>) -> Seq<char>
    decreases s.len(),
{
    if s.len() > 0 && is_white_space(s.last()) {
        trimmed_end(s.drop_last())
    } else {
        s
    }
}

/// `s` without the white space around it.
pub open spec fn trimmed(s: Seq<char>) -> Seq<char> {
    trimmed_end(trimmed_start(s))
}

proof fn trimmed_start_push(s: Seq<char>, c: char)
    requires
        is_white_space(c),
    ensures
        trimmed_start(s.push(c)) == (if trimmed_start(s).len() == 0 {
            seq![]
        } else {
            trimmed_start(s).push(c)
        }),
    decreases s.len(),
{
    if s.len() == 0 {
        reveal_with_fuel(trimmed_start, 2);
        assert(s.push(c).drop_first() =~= Seq::<char>::empty());
    } else if is_white_space(s.first()) {
        trimmed_start_push(s.drop_first(), c);
        assert(s.push(c).drop_first() =~= s.drop_first().push(c));
        assert(s.push(c).first() == s.first());
    } else {
        assert(s.push(c).first() == s.first());
    }
}

/// White space around a text makes no difference to what is left when it is
/// trimmed.
pub proof fn padding_does_not_matter(s: Seq<char>, c: char)
    requires
        is_white_space(c),
    ensures
        trimmed(seq![c] + s) == trimmed(s),
        trimmed(s.push(c)) == trimmed(s),
{
    assert((seq![c] + s).drop_first() =~= s);
    trimmed_start_push(s, c);
    let start = trimmed_start(s);
    if start.len() > 0 {
        assert(start.push(c).drop_last() =~= start);
    } else {
        assert(start =~= Seq::<char>::empty());
    }
}

/// `str::trim` removes leading and trailing white space, in the sense of the
/// Unicode property `White_Space`.
pub assume_specification[ str::trim ](s: &str) -> (r: &str)
    ensures
        r@ == trimmed(s@),
;

/// `String::push_str` appends the given text.
pub assume_specification[ String::push_str ](s: &mut String, other: &str)
    ensures
        final(s)@ == old(s)@ + other@,
;

/// `String::push` appends one character.
pub assume_specification[ String::push ](s: &mut String, c: char)
    ensures
        final(s)@ == old(s)@.push(c),
;

/// The characters of `s`.
pub fn chars_of(s: &str) -> (r: Vec<char>)
    ensures
        r@ == s@,
{
    let mut r: Vec<char> = Vec::new();
    for c in it: s.chars()
        invariant
            it.seq() == s@,
            r@ == s@.take(it.index() as int),
    {
        proof {
            assert(s@.take(it.index() as int).push(c) =~= s@.take(it.index() + 1));
        }
        r.push(c);
    }
    proof {
        assert(s@.take(s@.len() as int) =~= s@);
    }
    r
}

/// The text made of the characters `cs[from..to]`.
pub fn text_of(cs: &Vec<char>, from: usize, to: usize) -> (r: String)
    requires
        from <= to <= cs@.len(),
    ensures
        r@ == cs@.subrange(from as int, to as int),
{
    let mut r: String = String::new();
    let mut i: usize = from;
    while i < to
        invariant
            from <= i <= to <= cs@.len(),
            r@ == cs@.subrange(from as int, i as int),
        decreases to - i,
    {
        proof {
            assert(cs@.subrange(from as int, i as int).push(cs@[i as int]) =~= cs@.subrange(
                from as int,
                i + 1,
            ));
        }
        r.push(cs[i]);
        i += 1;
    }
    r
}

/// `a` comes before `b` in the order of their first differing characters; a
/// text comes before its own extensions.
pub open spec fn lex_less(a: Seq<char>, b: Seq<char>) -> bool
    decreases a.len(),
{
    if b.len() == 0 {
        false
    } else if a.len() == 0 {
        true
    } else if a[0] != b[0] {
        a[0] < b[0]
    } else {
        lex_less(a.drop_first(), b.drop_first())
    }
}

/// No text comes before itself.
pub proof fn lex_irreflexive(a: Seq<char>)
    ensures
        !lex_less(a, a),
    decreases a.len(),
{
    if a.len() > 0 {
        lex_irreflexive(a.drop_first());
    }
}

/// The order of texts is transitive.
pub proof fn lex_transitive(a: Seq<char>, b: Seq<char>, c: Seq<char>)
    requires
        lex_less(a, b),
        lex_less(b, c),
    ensures
        lex_less(a, c),
    decreases a.len(),
{
    if a.len() > 0 && a[0] == b[0] && b[0] == c[0] {
        lex_transitive(a.drop_first(), b.drop_first(), c.drop_first());
    }
}

/// Of two different texts one comes before the other.
pub proof fn lex_total(a: Seq<char>, b: Seq<char>)
    ensures
        a == b || lex_less(a, b) || lex_less(b, a),
    decreases a.len(),
{
    if a.len() > 0 && b.len() > 0 && a[0] == b[0] {
        lex_total(a.drop_first(), b.drop_first());
        if a.drop_first() == b.drop_first() {
            assert(a =~= seq![a[0]] + a.drop_first());
            assert(b =~= seq![b[0]] + b.drop_first());
        }
    } else if a.len() == 0 && b.len() == 0 {
        assert(a =~= b);
    }
}

/// Two texts are never each before the other.
pub proof fn lex_asymmetric(a: Seq<char>, b: Seq<char>)
    requires
        lex_less(a, b),
    ensures
        !lex_less(b, a),
        a != b,
{
    lex_irreflexive(a);
    if lex_less(b, a) {
        lex_transitive(a, b, a);
    }
}

/// The texts grow strictly along the list.
pub open spec fn are_sorted(list: Seq<Seq<char>>) -> bool {
    forall|i: int, j: int|
        0 <= i < j < list.len() ==> lex_less(#[trigger] list[i], #[trigger] list[j])
}

proof fn sorted_up_to(one: Seq<Seq<char>>, two: Seq<Seq<char>>, k: int)
    requires
        are_sorted(one),
        are_sorted(two),
        forall|x: Seq<char>| one.contains(x) <==> two.contains(x),
        0 <= k <= one.len(),
    ensures
        k <= two.len(),
        forall|i: int| 0 <= i < k ==> #[trigger] one[i] == two[i],
    decreases k,
{
    if k > 0 {
        sorted_up_to(one, two, k - 1);
        let x = one[k - 1];
        assert(one.contains(x));
        let p = choose|p: int| 0 <= p < two.len() && two[p] == x;
        lex_irreflexive(x);
        if p < k - 1 {
            assert(one[p] == two[p]);
            assert(lex_less(one[p], one[k - 1]));
        }
        let y = two[k - 1];
        assert(two.contains(y));
        let q = choose|q: int| 0 <= q < one.len() && one[q] == y;
        lex_irreflexive(y);
        if q < k - 1 {
            assert(one[q] == two[q]);
            assert(lex_less(two[q], two[k - 1]));
        }
        if p > k - 1 && q > k - 1 {
            assert(lex_less(two[k - 1], two[p]));
            assert(lex_less(one[k - 1], one[q]));
            lex_asymmetric(y, x);
        }
    }
}

/// Two sorted lists of the same texts are equal.
pub proof fn sorted_texts_agree(one: Seq<Seq<char>>, two: Seq<Seq<char>>)
    requires
        are_sorted(one),
        are_sorted(two),
        forall|x: Seq<char>| one.contains(x) <==> two.contains(x),
    ensures
        one == two,
{
    sorted_up_to(one, two, one.len() as int);
    sorted_up_to(two, one, two.len() as int);
    assert(one =~= two);
}

/// Whether `a` comes before `b`.
pub(crate) fn text_less(a: &str, b: &str) -> (r: bool)
    ensures
        r == lex_less(a@, b@),
{
    let mut left: std::str::Chars<'_> = a.chars();
    let mut right: std::str::Chars<'_> = b.chars();
    let ghost mut k: int = 0;
    assert(a@.skip(0) =~= a@);
    assert(b@.skip(0) =~= b@);
    loop
        invariant
            0 <= k <= a@.len(),
            k <= b@.len(),
            vstd::std_specs::iter::IteratorSpec::remaining(&left) == a@.skip(k),
            vstd::std_specs::iter::IteratorSpec::remaining(&right) == b@.skip(k),
            lex_less(a@, b@) == lex_less(a@.skip(k), b@.skip(k)),
        decreases b@.len() - k,
    {
        let x: Option<char> = left.next();
        let y: Option<char> = right.next();
        match (x, y) {
            (_, None) => {
                return false;
            },
            (None, Some(_)) => {
                return true;
            },
            (Some(x), Some(y)) => {
                if x != y {
                    return x < y;
                }
            },
        }
        proof {
            assert(a@.skip(k).drop_first() =~= a@.skip(k + 1));
            assert(b@.skip(k).drop_first() =~= b@.skip(k + 1));
            k = k + 1;
        }
    }
}

/// Whether the texts have the same characters.
pub(crate) fn text_same(a: &str, b: &str) -> (r: bool)
    ensures
        r == (a@ == b@),
{
    let mut left: std::str::Chars<'_> = a.chars();
    let mut right: std::str::Chars<'_> = b.chars();
    let ghost mut k: int = 0;
    assert(a@.skip(0) =~= a@);
    assert(b@.skip(0) =~= b@);
    loop
        invariant
            0 <= k <= a@.len(),
            k <= b@.len(),
            vstd::std_specs::iter::IteratorSpec::remaining(&left) == a@.skip(k),
            vstd::std_specs::iter::IteratorSpec::remaining(&right) == b@.skip(k),
            forall|i: int| 0 <= i < k ==> a@[i] == b@[i],
        decreases b@.len() - k,
    {
        let x: Option<char> = left.next();
        let y: Option<char> = right.next();
        match (x, y) {
            (None, None) => {
                assert(a@ =~= b@);
                return true;
            },
            (Some(x), Some(y)) => {
                if x != y {
                    assert(a@[k] == x && b@[k] == y);
                    return false;
                }
            },
            _ => {
                assert(a@.len() != b@.len());
                return false;
            },
        }
        proof {
            assert(a@.skip(k).drop_first() =~= a@.skip(k + 1));
            assert(b@.skip(k).drop_first() =~= b@.skip(k + 1));
            k = k + 1;
        }
    }
}

/// Whether `text` holds no characters.
pub fn is_empty_text(text: &str) -> (r: bool)
    ensures
        r == (text@.len() == 0),
{
    let r: bool = text_same(text, "");
    proof {
        reveal_strlit("");
        if text@.len() == 0 {
            assert(text@ =~= ""@);
        }
    }
    r
}

/// The first `limit` characters of `s`, or all of it if it is shorter.
pub open spec fn preview(s: Seq<char>, limit: int) -> Seq<char> {
    if s.len() <= limit {
        s
    } else {
        s.take(limit)
    }
}

/// The first `limit` characters of `s`.
pub fn preview_text(s: &str, limit: usize) -> (r: String)
    ensures
        r@ == preview(s@, limit as int),
{
    let cs: Vec<char> = chars_of(s);
    let end: usize = if cs.len() <= limit {
        cs.len()
    } else {
        limit
    };
    let r: String = text_of(&cs, 0, end);
    proof {
        assert(r@ =~= preview(s@, limit as int));
    }
    r
}

/// How often `c` occurs in `s`.
pub open spec fn occurrences(s: Seq<char>, c: char) -> nat
    decreases s.len(),
{
    if s.len() == 0 {
        0
    } else {
        occurrences(s.drop_last(), c) + if s.last() == c {
            1nat
        } else {
            0nat
        }
    }
}

/// A character occurs in a text made of two parts as often as in both together.
pub proof fn occurrences_add(a: Seq<char>, b: Seq<char>, c: char)
    ensures
        occurrences(a + b, c) == occurrences(a, c) + occurrences(b, c),
    decreases b.len(),
{
    if b.len() == 0 {
        assert(a + b =~= a);
    } else {
        occurrences_add(a, b.drop_last(), c);
        assert((a + b).drop_last() =~= a + b.drop_last());
    }
}

/// A character that stands nowhere in a text does not occur in it.
pub proof fn occurrences_none(s: Seq<char>, c: char)
    requires
        !s.contains(c),
    ensures
        occurrences(s, c) == 0,
    decreases s.len(),
{
    if s.len() > 0 {
        assert forall|i: int| 0 <= i < s.drop_last().len() implies s.drop_last()[i] != c by {
            assert(s.drop_last()[i] == s[i]);
            assert(s.contains(s[i]));
        }
        occurrences_none(s.drop_last(), c);
        assert(s.contains(s.last()));
    }
}

/// The decimal digit for `d`.
pub open spec fn digit(d: nat) -> char {
    (48 + d) as char
}

/// `n` in decimal, without leading zeros.
pub open spec fn decimal(n: nat) -> Seq<char>
    decreases n,
{
    if n < 10 {
        seq![digit(n)]
    } else {
        decimal(n / 10).push(digit(n % 10))
    }
}

fn digit_char(d: u64) -> (r: char)
    requires
        d < 10,
    ensures
        r == digit(d as nat),
{
    match d {
        0 => '0',
        1 => '1',
        2 => '2',
        3 => '3',
        4 => '4',
        5 => '5',
        6 => '6',
        7 => '7',
        8 => '8',
        _ => '9',
    }
}

/// Writes `n` in decimal.
pub fn decimal_text(n: u64) -> (r: String)
    ensures
        r@ == decimal(n as nat),
    decreases n,
{
    if n < 10 {
        let mut r: String = String::new();
        r.push(digit_char(n));
        proof {
            assert(r@ =~= seq![digit(n as nat)]);
        }
        r
    } else {
        let mut r: String = decimal_text(n / 10);
        r.push(digit_char(n % 10));
        r
    }
}

/// The digits after the point of so many thousandths, without trailing zeros.
pub open spec fn fraction(part: nat) -> Seq<char> {
    if part % 100 == 0 {
        seq![digit(part / 100)]
    } else if part % 10 == 0 {
        seq![digit(part / 100), digit(part / 10 % 10)]
    } else {
        seq![digit(part / 100), digit(part / 10 % 10), digit(part % 10)]
    }
}

/// So many thousandths as a decimal number.
pub open spec fn thousandths(n: nat) -> Seq<char> {
    if n % 1000 == 0 {
        decimal(n / 1000)
    } else {
        decimal(n / 1000) + "."@ + fraction(n % 1000)
    }
}

/// Writes so many thousandths as a decimal number.
pub fn thousandths_text(n: u64) -> (r: String)
    ensures
        r@ == thousandths(n as nat),
{
    let mut r: String = decimal_text(n / 1000);
    let part: u64 = n % 1000;
    if part != 0 {
        r.push_str(".");
        let ghost whole = r@;
        r.push(digit_char(part / 100));
        if part % 100 != 0 {
            r.push(digit_char(part / 10 % 10));
            if part % 10 != 0 {
                r.push(digit_char(part % 10));
            }
        }
        proof {
            assert(r@ =~= whole + fraction(part as nat));
        }
    }
    r
}

/// Every character of the text is white space.
pub open spec fn is_blank(s: Seq<char>) -> bool {
    forall|i: int| 0 <= i < s.len() ==> is_white_space(#[trigger] s[i])
}

/// The text neither starts nor ends with white space.
pub open spec fn is_tight(s: Seq<char>) -> bool {
    s.len() > 0 ==> !is_white_space(s[0]) && !is_white_space(s[s.len() - 1])
}

proof fn start_is_blank(s: Seq<char>) -> (p: Seq<char>)
    ensures
        is_blank(p),
        s == p + trimmed_start(s),
        trimmed_start(s).len() > 0 ==> !is_white_space(trimmed_start(s)[0]),
    decreases s.len(),
{
    if s.len() > 0 && is_white_space(s.first()) {
        let rest = start_is_blank(s.drop_first());
        let p = seq![s.first()] + rest;
        assert forall|i: int| 0 <= i < p.len() implies is_white_space(#[trigger] p[i]) by {
            if i > 0 {
                assert(p[i] == rest[i - 1]);
            }
        }
        assert(s =~= seq![s.first()] + s.drop_first());
        assert(s =~= p + trimmed_start(s.drop_first()));
        p
    } else {
        assert(s =~= Seq::<char>::empty() + s);
        Seq::empty()
    }
}

proof fn end_is_blank(s: Seq<char>) -> (q: Seq<char>)
    ensures
        is_blank(q),
        s == trimmed_end(s) + q,
        trimmed_end(s).len() > 0 ==> !is_white_space(trimmed_end(s)[trimmed_end(s).len() - 1]),
    decreases s.len(),
{
    if s.len() > 0 && is_white_space(s.last()) {
        let rest = end_is_blank(s.drop_last());
        let q = rest.push(s.last());
        assert forall|i: int| 0 <= i < q.len() implies is_white_space(#[trigger] q[i]) by {
            if i < rest.len() {
                assert(q[i] == rest[i]);
            }
        }
        assert(s =~= s.drop_last().push(s.last()));
        assert(s =~= trimmed_end(s.drop_last()) + q);
        q
    } else {
        assert(s =~= s + Seq::<char>::empty());
        Seq::empty()
    }
}

proof fn blank_start_goes(p: Seq<char>, s: Seq<char>)
    requires
        is_blank(p),
    ensures
        trimmed_start(p + s) == trimmed_start(s),
    decreases p.len(),
{
    if p.len() > 0 {
        assert(is_white_space(p[0]));
        assert((p + s).first() == p[0]);
        assert((p + s).drop_first() =~= p.drop_first() + s);
        assert forall|i: int| 0 <= i < p.drop_first().len() implies is_white_space(
            #[trigger] p.drop_first()[i],
        ) by {
            assert(p.drop_first()[i] == p[i + 1]);
        }
        blank_start_goes(p.drop_first(), s);
    } else {
        assert(p + s =~= s);
    }
}

proof fn blank_end_goes(s: Seq<char>, q: Seq<char>)
    requires
        is_blank(q),
    ensures
        trimmed_end(s + q) == trimmed_end(s),
    decreases q.len(),
{
    if q.len() > 0 {
        assert(is_white_space(q[q.len() - 1]));
        assert((s + q).last() == q[q.len() - 1]);
        assert((s + q).drop_last() =~= s + q.drop_last());
        assert forall|i: int| 0 <= i < q.drop_last().len() implies is_white_space(
            #[trigger] q.drop_last()[i],
        ) by {
            assert(q.drop_last()[i] == q[i]);
        }
        blank_end_goes(s, q.drop_last());
    } else {
        assert(s + q =~= s);
    }
}

/// Trimming takes away white space at both ends and nothing else, and leaves
/// none there.
pub proof fn trimming_takes_only_white_space(s: Seq<char>) -> (r: (Seq<char>, Seq<char>))
    ensures
        is_blank(r.0),
        is_blank(r.1),
        s == r.0 + trimmed(s) + r.1,
        is_tight(trimmed(s)),
{
    let p = start_is_blank(s);
    let start = trimmed_start(s);
    let q = end_is_blank(start);
    assert(s =~= p + trimmed(s) + q);
    if trimmed(s).len() > 0 {
        assert(trimmed(s)[0] == start[0]);
    }
    (p, q)
}

/// A text that does not start or end with white space is what is left of it
/// whatever white space is put around it.
pub proof fn trimming_finds_the_core(p: Seq<char>, core: Seq<char>, q: Seq<char>)
    requires
        is_blank(p),
        is_blank(q),
        is_tight(core),
    ensures
        trimmed(p + core + q) == core,
{
    assert(p + core + q =~= p + (core + q));
    blank_start_goes(p, core + q);
    if core.len() == 0 {
        assert(core + q =~= q + Seq::<char>::empty());
        blank_start_goes(q, Seq::empty());
        assert(core =~= Seq::<char>::empty());
    } else {
        assert((core + q).first() == core[0]);
        blank_end_goes(core, q);
        assert(core.last() == core[core.len() - 1]);
    }
}

/// One text comes before another exactly if it is a proper start of it, or has
/// the lower character where the two first differ.
pub proof fn first_difference_decides(a: Seq<char>, b: Seq<char>)
    ensures
        lex_less(a, b) <==> exists|k: int|
            {
                &&& 0 <= k <= a.len()
                &&& k < b.len()
                &&& #[trigger] a.take(k) == b.take(k)
                &&& (k < a.len() ==> a[k] < b[k])
            },
    decreases a.len(),
{
    if b.len() > 0 {
        if a.len() == 0 {
            assert(a.take(0) =~= b.take(0));
        } else if a[0] != b[0] {
            if a[0] < b[0] {
                assert(a.take(0) =~= b.take(0));
            }
            if exists|k: int|
                {
                    &&& 0 <= k <= a.len()
                    &&& k < b.len()
                    &&& #[trigger] a.take(k) == b.take(k)
                    &&& (k < a.len() ==> a[k] < b[k])
                } {
                let k = choose|k: int|
                    {
                        &&& 0 <= k <= a.len()
                        &&& k < b.len()
                        &&& #[trigger] a.take(k) == b.take(k)
                        &&& (k < a.len() ==> a[k] < b[k])
                    };
                if k > 0 {
                    assert(a.take(k)[0] == b.take(k)[0]);
                }
            }
        } else {
            let x = a.drop_first();
            let y = b.drop_first();
            first_difference_decides(x, y);
            if lex_less(a, b) {
                let k = choose|k: int|
                    {
                        &&& 0 <= k <= x.len()
                        &&& k < y.len()
                        &&& #[trigger] x.take(k) == y.take(k)
                        &&& (k < x.len() ==> x[k] < y[k])
                    };
                assert(a.take(k + 1) =~= seq![a[0]] + x.take(k));
                assert(b.take(k + 1) =~= seq![b[0]] + y.take(k));
                assert(a.take(k + 1) == b.take(k + 1));
            }
            if exists|k: int|
                {
                    &&& 0 <= k <= a.len()
                    &&& k < b.len()
                    &&& #[trigger] a.take(k) == b.take(k)
                    &&& (k < a.len() ==> a[k] < b[k])
                } {
                let k = choose|k: int|
                    {
                        &&& 0 <= k <= a.len()
                        &&& k < b.len()
                        &&& #[trigger] a.take(k) == b.take(k)
                        &&& (k < a.len() ==> a[k] < b[k])
                    };
                assert(k > 0);
                assert(x.take(k - 1) =~= a.take(k).drop_first());
                assert(y.take(k - 1) =~= b.take(k).drop_first());
                assert(x.take(k - 1) == y.take(k - 1));
            }
        }
    }
}

/// A preview is the start of the text: all of it if it is no longer than the
/// limit, and otherwise as many characters as the limit allows.
pub proof fn previews_start_the_text(s: Seq<char>, limit: int)
    requires
        0 <= limit,
    ensures
        preview(s, limit).len() == (if s.len() <= limit {
            s.len() as int
        } else {
            limit
        }),
        forall|i: int| 0 <= i < preview(s, limit).len() ==> #[trigger] preview(s, limit)[i] == s[i],
{
}

/// The number that a row of decimal digits stands for.
pub open spec fn number_read(s: Seq<char>) -> int
    decreases s.len(),
{
    if s.len() == 0 {
        0
    } else {
        10 * number_read(s.drop_last()) + (s.last() as int - '0' as int)
    }
}

/// A number is written in digits that read as the number, without leading
/// zeros.
pub proof fn decimals_read_back(n: nat)
    ensures
        number_read(decimal(n)) == n,
        decimal(n).len() > 0,
        forall|i: int| 0 <= i < decimal(n).len() ==> '0' <= #[trigger] decimal(n)[i] <= '9',
        n > 0 ==> decimal(n)[0] != '0',
        n < 10 ==> decimal(n).len() == 1,
    decreases n,
{
    if n < 10 {
        assert(decimal(n).drop_last() =~= Seq::<char>::empty());
        reveal_with_fuel(number_read, 2);
    } else {
        decimals_read_back(n / 10);
        assert(decimal(n).drop_last() =~= decimal(n / 10));
        assert forall|i: int| 0 <= i < decimal(n).len() implies '0' <= #[trigger] decimal(n)[i]
            <= '9' by {
            if i < decimal(n / 10).len() {
                assert(decimal(n)[i] == decimal(n / 10)[i]);
            }
        }
        assert(decimal(n)[0] == decimal(n / 10)[0]);
    }
}

/// Different numbers are written differently.
pub proof fn decimals_tell_numbers_apart(n: nat, m: nat)
    requires
        decimal(n) == decimal(m),
    ensures
        n == m,
{
    decimals_read_back(n);
    decimals_read_back(m);
}

/// So many thousandths are written as a whole number, or as a whole number, a
/// point and up to three digits that do not end in zero and read, filled up to
/// three, as the thousandths.
pub proof fn thousandths_read_back(n: nat) -> (digits: Seq<char>)
    ensures
        n % 1000 == 0 ==> thousandths(n) == decimal(n / 1000) && digits.len() == 0,
        n % 1000 != 0 ==> {
            &&& thousandths(n) == decimal(n / 1000) + "."@ + digits
            &&& 1 <= digits.len() <= 3
            &&& digits[digits.len() - 1] != '0'
            &&& digits.len() == 1 ==> number_read(digits) * 100 == n % 1000
            &&& digits.len() == 2 ==> number_read(digits) * 10 == n % 1000
            &&& digits.len() == 3 ==> number_read(digits) == n % 1000
        },
{
    if n % 1000 == 0 {
        Seq::empty()
    } else {
        let part = n % 1000;
        let digits = fraction(part);
        reveal_with_fuel(number_read, 4);
        assert(digits.drop_last().drop_last().drop_last() =~= Seq::<char>::empty() || digits.len()
            < 3);
        assert(digits.drop_last().drop_last() =~= Seq::<char>::empty() || digits.len() != 2);
        assert(digits.drop_last() =~= Seq::<char>::empty() || digits.len() != 1);
        if digits.len() == 2 {
            assert(digits.drop_last() =~= seq![digits[0]]);
        }
        if digits.len() == 3 {
            assert(digits.drop_last() =~= seq![digits[0], digits[1]]);
            assert(digits.drop_last().drop_last() =~= seq![digits[0]]);
        }
        digits
    }
}

/// The part stands somewhere in the text, in one piece.
pub open spec fn holds_part(text: Seq<char>, part: Seq<char>) -> bool {
    exists|before: Seq<char>, after: Seq<char>| text == #[trigger] (before + part + after)
}

/// A text holds the part that it ends with.
pub broadcast proof fn holds_its_end(a: Seq<char>, part: Seq<char>)
    ensures
        #[trigger] holds_part(a + part, part),
{
    assert(a + part =~= a + part + Seq::<char>::empty());
}

/// A text holds what it held before something was added at its end.
pub broadcast proof fn holds_more(a: Seq<char>, b: Seq<char>, part: Seq<char>)
    requires
        holds_part(a, part),
    ensures
        #[trigger] holds_part(a + b, part),
{
    let (before, after) = choose|before: Seq<char>, after: Seq<char>|
        a == #[trigger] (before + part + after);
    assert(a + b =~= before + part + (after + b));
}

/// What a part holds, the whole text holds.
pub proof fn holds_inner(text: Seq<char>, part: Seq<char>, inner: Seq<char>)
    requires
        holds_part(text, part),
        holds_part(part, inner),
    ensures
        holds_part(text, inner),
{
    let (before, after) = choose|before: Seq<char>, after: Seq<char>|
        text == #[trigger] (before + part + after);
    let (left, right) = choose|left: Seq<char>, right: Seq<char>|
        part == #[trigger] (left + inner + right);
    assert(text =~= (before + left) + inner + (right + after));
}

/// What `decimal_text` writes are the digits of the number, without leading
/// zeros.
pub proof fn written_numbers_read_back(n: u64, r: String)
    requires
        call_ensures(decimal_text, (n,), r),
    ensures
        number_read(r@) == n,
        r@.len() > 0,
        forall|i: int| 0 <= i < r@.len() ==> '0' <= #[trigger] r@[i] <= '9',
        n > 0 ==> r@[0] != '0',
        n == 0 ==> r@.len() == 1,
{
    decimals_read_back(n as nat);
}

/// What `thousandths_text` writes is the number of wholes, and after a point as
/// many digits as are needed for the rest.
pub proof fn written_thousandths_read_back(n: u64, r: String, wholes: String) -> (digits: Seq<char>)
    requires
        call_ensures(thousandths_text, (n,), r),
        call_ensures(decimal_text, ((n / 1000) as u64,), wholes),
    ensures
        n % 1000 == 0 ==> r@ == wholes@,
        n % 1000 != 0 ==> {
            &&& r@ == wholes@ + "."@ + digits
            &&& 1 <= digits.len() <= 3
            &&& digits[digits.len() - 1] != '0'
            &&& digits.len() == 1 ==> number_read(digits) * 100 == n % 1000
            &&& digits.len() == 2 ==> number_read(digits) * 10 == n % 1000
            &&& digits.len() == 3 ==> number_read(digits) == n % 1000
        },
{
    thousandths_read_back(n as nat)
}

/// What `preview_text` keeps is the beginning of the text, as much as the limit
/// allows.
pub proof fn previews_keep_the_beginning(s: &str, limit: usize, r: String)
    requires
        call_ensures(preview_text, (s, limit), r),
    ensures
        r@.is_prefix_of(s@),
        r@.len() == limit || (r@.len() < limit && r@ == s@),
{
    previews_start_the_text(s@, limit as int);
    if s@.len() <= limit {
        assert(r@ =~= s@);
    }
    assert(r@ =~= s@.subrange(0, r@.len() as int));
}

} // verus!

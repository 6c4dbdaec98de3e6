use vstd::prelude::*;

verus! {

/// Appends one character to a string.
#[verifier::external_body]
pub(crate) fn push_char(s: &mut String, c: char)
    ensures
        final(s)@ == old(s)@.push(c),
{
    s.push(c);
}

/// The characters of a string.
pub fn chars_of(s: &str) -> (v: Vec<char>)
    ensures
        v@ == s@,
{
    let mut v: Vec<char> = Vec::new();
    for c in it: s.chars()
        invariant
            v@ == it.seq().take(it.index()),
            it.seq() == s@,
    {
        v.push(c);
    }
    v
}



/// The character of a decimal digit.
pub open spec fn digit_char(d: nat) -> char
    recommends
        d < 10,
{
    ((d + 48) as u8) as char
}

/// The decimal representation of a natural number, most significant digit first,
/// without leading zeros (zero is written `0`).
pub open spec fn decimal(n: nat) -> Seq<char>
    decreases n,
{
    if n < 10 {
        seq![digit_char(n)]
    } else {
        decimal(n / 10).push(digit_char(n % 10))
    }
}

fn digit(d: usize) -> (c: char)
    requires
        d < 10,
    ensures
        c == digit_char(d as nat),
{
    ((d as u8) + 48u8) as char
}

/// Appends the decimal representation of `n`.
pub fn write_decimal(s: &mut String, n: usize)
    ensures
        final(s)@ == old(s)@ + decimal(n as nat),
    decreases n,
{
    if n >= 10 {
        write_decimal(s, n / 10);
    }
    push_char(s, digit(n % 10));
    assert(decimal(n as nat) == if n < 10 { seq![digit_char(n as nat)] } else {
        decimal((n / 10) as nat).push(digit_char((n % 10) as nat))
    });
}


/// Lexicographic order on character sequences, comparing characters by code point.
/// It agrees with the order of `str` (bytewise on UTF-8, which preserves code point order).
pub open spec fn seq_less(a: Seq<char>, b: Seq<char>) -> bool
    decreases a.len(),
{
    if a.len() == 0 {
        b.len() > 0
    } else if b.len() == 0 {
        false
    } else if a[0] != b[0] {
        (a[0] as int) < (b[0] as int)
    } else {
        seq_less(a.drop_first(), b.drop_first())
    }
}

pub proof fn lemma_less_irreflexive(a: Seq<char>)
    ensures
        !seq_less(a, a),
    decreases a.len(),
{
    if a.len() > 0 {
        lemma_less_irreflexive(a.drop_first());
    }
}

pub proof fn lemma_less_asymmetric(a: Seq<char>, b: Seq<char>)
    ensures
        seq_less(a, b) ==> !seq_less(b, a),
    decreases a.len(),
{
    if a.len() > 0 && b.len() > 0 && a[0] == b[0] {
        lemma_less_asymmetric(a.drop_first(), b.drop_first());
    }
}

pub proof fn lemma_less_total(a: Seq<char>, b: Seq<char>)
    ensures
        a != b ==> seq_less(a, b) || seq_less(b, a),
    decreases a.len(),
{
    if a.len() > 0 && b.len() > 0 {
        if a[0] == b[0] {
            lemma_less_total(a.drop_first(), b.drop_first());
            if a.drop_first() == b.drop_first() {
                assert(a =~= seq![a[0]] + a.drop_first());
                assert(b =~= seq![b[0]] + b.drop_first());
            }
        } else {
            assert((a[0] as int) != (b[0] as int));
        }
    } else if a.len() == 0 && b.len() == 0 {
        assert(a =~= b);
    }
}

pub proof fn lemma_less_transitive(a: Seq<char>, b: Seq<char>, c: Seq<char>)
    requires
        seq_less(a, b),
        seq_less(b, c),
    ensures
        seq_less(a, c),
    decreases a.len(),
{
    if a.len() > 0 && b.len() > 0 && c.len() > 0 && a[0] == b[0] && b[0] == c[0] {
        lemma_less_transitive(a.drop_first(), b.drop_first(), c.drop_first());
    }
}

/// How two keys compare.
pub enum KeyOrder {
    Less,
    Equal,
    Greater,
}

/// Compares two strings in the order of `seq_less`.
pub fn compare_str(a: &str, b: &str) -> (r: KeyOrder)
    ensures
        r is Less <==> seq_less(a@, b@),
        r is Equal <==> a@ == b@,
        r is Greater <==> seq_less(b@, a@),
{
    let va = chars_of(a);
    let vb = chars_of(b);
    let mut i: usize = 0;
    assert(a@.skip(0) =~= a@);
    assert(b@.skip(0) =~= b@);
    while i < va.len() && i < vb.len() && va[i] == vb[i]
        invariant
            i <= va.len(),
            i <= vb.len(),
            va@ == a@,
            vb@ == b@,
            va@.take(i as int) == vb@.take(i as int),
            seq_less(a@, b@) == seq_less(a@.skip(i as int), b@.skip(i as int)),
            seq_less(b@, a@) == seq_less(b@.skip(i as int), a@.skip(i as int)),
        decreases va.len() - i,
    {
        assert(a@.skip(i as int).drop_first() =~= a@.skip(i + 1));
        assert(b@.skip(i as int).drop_first() =~= b@.skip(i + 1));
        assert(va@.take(i + 1) =~= va@.take(i as int).push(va@[i as int]));
        assert(vb@.take(i + 1) =~= vb@.take(i as int).push(vb@[i as int]));
        i = i + 1;
    }
    proof {
        lemma_less_asymmetric(a@, b@);
        lemma_less_total(a@, b@);
        lemma_less_irreflexive(a@);
    }
    if i < va.len() && i < vb.len() {
        proof {
            assert(a@.skip(i as int)[0] == a@[i as int]);
            assert(b@.skip(i as int)[0] == b@[i as int]);
            assert(a@ != b@) by {
                assert(a@[i as int] != b@[i as int]);
            }
        }
        let ca = va[i];
        let cb = vb[i];
        if ca < cb {
            KeyOrder::Less
        } else {
            KeyOrder::Greater
        }
    } else if i < vb.len() {
        assert(a@ != b@) by { assert(a@.len() != b@.len()); }
        KeyOrder::Less
    } else if i < va.len() {
        assert(a@ != b@) by { assert(a@.len() != b@.len()); }
        KeyOrder::Greater
    } else {
        assert(a@ =~= va@.take(i as int));
        assert(b@ =~= vb@.take(i as int));
        KeyOrder::Equal
    }
}


/// Whether two strings hold the same characters.
pub fn str_eq(a: &str, b: &str) -> (r: bool)
    ensures
        r == (a@ == b@),
{
    match compare_str(a, b) {
        KeyOrder::Equal => true,
        _ => false,
    }
}


/// The digits of `s` with a comma before every third one counted from the right.
pub open spec fn group3(s: Seq<char>) -> Seq<char>
    decreases s.len(),
{
    if s.len() <= 3 {
        s
    } else {
        group3(s.take(s.len() - 3)) + seq![','] + s.skip(s.len() - 3)
    }
}

/// Keeps every character but the comma.
pub open spec fn not_comma() -> spec_fn(char) -> bool {
    |c: char| c != ','
}

proof fn lemma_filter_comma_free(s: Seq<char>)
    requires
        !s.contains(','),
    ensures
        s.filter(not_comma()) == s,
    decreases s.len(),
{
    reveal(Seq::filter);
    if s.len() > 0 {
        assert(!s.drop_last().contains(',')) by {
            if s.drop_last().contains(',') {
                let j = choose|j: int| 0 <= j < s.drop_last().len() && s.drop_last()[j] == ',';
                assert(s[j] == ',');
            }
        }
        lemma_filter_comma_free(s.drop_last());
        assert(s.drop_last().push(s.last()) =~= s);
    }
}

/// Grouping by thousands only inserts commas: taken out again, they leave the digits as
/// they were, for every integral part that holds no comma of its own.
pub proof fn law_grouping_only_inserts_commas(s: Seq<char>)
    requires
        !s.contains(','),
    ensures
        group3(s).filter(not_comma()) == s,
    decreases s.len(),
{
    if s.len() <= 3 {
        lemma_filter_comma_free(s);
    } else {
        let front = s.take(s.len() - 3);
        let back = s.skip(s.len() - 3);
        assert(!front.contains(',')) by {
            if front.contains(',') {
                let j = choose|j: int| 0 <= j < front.len() && front[j] == ',';
                assert(s[j] == ',');
            }
        }
        assert(!back.contains(',')) by {
            if back.contains(',') {
                let j = choose|j: int| 0 <= j < back.len() && back[j] == ',';
                assert(s[s.len() - 3 + j] == ',');
            }
        }
        law_grouping_only_inserts_commas(front);
        lemma_filter_comma_free(back);
        let comma = seq![','];
        Seq::filter_distributes_over_add(group3(front) + comma, back, not_comma());
        Seq::filter_distributes_over_add(group3(front), comma, not_comma());
        assert(comma.filter(not_comma()) =~= Seq::<char>::empty()) by {
            reveal_with_fuel(Seq::filter, 2);
            assert(comma.drop_last() =~= Seq::<char>::empty());
        }
        assert(front + back =~= s);
    }
}

/// Grouping by thousands puts a comma exactly at the positions that have a multiple of
/// four characters from there to the end: every comma is followed by three digits, and
/// the digits before the first comma are one to three (for digits without commas of
/// their own).
proof fn lemma_mod4_shift(a: int)
    ensures
        (a + 4) % 4 == a % 4,
        1 <= a <= 3 ==> a % 4 != 0,
        a == 0 ==> a % 4 == 0,
{
}

pub proof fn law_grouping_puts_commas_every_three_digits(s: Seq<char>)
    requires
        !s.contains(','),
    ensures
        forall|i: int| 0 <= i < group3(s).len() ==> (#[trigger] group3(s)[i] == ',' <==> (group3(s).len() - i) % 4 == 0),
        s.len() > 0 ==> group3(s).len() == s.len() + (s.len() - 1) / 3,
    decreases s.len(),
{
    let r = group3(s);
    if s.len() <= 3 {
        assert forall|i: int| 0 <= i < r.len() implies (#[trigger] r[i] == ',' <==> (r.len() - i) % 4 == 0) by {
            assert(s[i] != ',') by {
                if s[i] == ',' {
                    assert(s.contains(','));
                }
            }
            lemma_mod4_shift(r.len() - i);
        }
    } else {
        let front = s.take(s.len() - 3);
        let back = s.skip(s.len() - 3);
        assert(!front.contains(',')) by {
            if front.contains(',') {
                let j = choose|j: int| 0 <= j < front.len() && front[j] == ',';
                assert(s[j] == ',');
            }
        }
        law_grouping_puts_commas_every_three_digits(front);
        let f = group3(front);
        assert(r == f + seq![','] + back);
        assert forall|i: int| 0 <= i < r.len() implies (#[trigger] r[i] == ',' <==> (r.len() - i) % 4 == 0) by {
            if i < f.len() {
                assert(r[i] == f[i]);
                lemma_mod4_shift(f.len() - i);
                assert(r.len() - i == (f.len() - i) + 4);
            } else if i == f.len() {
                assert(r[i] == ',');
                lemma_mod4_shift(0);
            } else {
                lemma_mod4_shift(r.len() - i);
                assert(r[i] == back[i - f.len() - 1]);
                assert(r[i] == s[s.len() - 3 + (i - f.len() - 1)]);
                assert(s[s.len() - 3 + (i - f.len() - 1)] != ',') by {
                    if s[s.len() - 3 + (i - f.len() - 1)] == ',' {
                        assert(s.contains(','));
                    }
                }
            }
        }
    }
}

/// Where the first `.` of `s` stands (the length of `s` if there is none).
pub open spec fn dot_index(s: Seq<char>) -> int
    decreases s.len(),
{
    if s.len() == 0 {
        0
    } else if s[0] == '.' {
        0
    } else {
        1 + dot_index(s.drop_first())
    }
}

/// A formatted number with its integral part (what comes before the first `.`) grouped
/// by thousands, followed by `.` and what came after that `.` (nothing if there was none).
pub open spec fn thousands(s: Seq<char>) -> Seq<char> {
    let d = dot_index(s);
    let fractional = if d < s.len() { s.skip(d + 1) } else { Seq::<char>::empty() };
    group3(s.take(d)) + seq!['.'] + fractional
}

proof fn lemma_dot_index(s: Seq<char>)
    ensures
        0 <= dot_index(s) <= s.len(),
        dot_index(s) < s.len() ==> s[dot_index(s)] == '.',
        forall|i: int| 0 <= i < dot_index(s) ==> s[i] != '.',
    decreases s.len(),
{
    if s.len() > 0 && s[0] != '.' {
        lemma_dot_index(s.drop_first());
        assert forall|i: int| 0 <= i < dot_index(s) implies s[i] != '.' by {
            if i > 0 {
                assert(s[i] == s.drop_first()[i - 1]);
            }
        }
    }
}

fn push_chars(out: &mut String, v: &Vec<char>, from: usize, to: usize)
    requires
        from <= to <= v@.len(),
    ensures
        final(out)@ == old(out)@ + v@.subrange(from as int, to as int),
{
    let mut i = from;
    while i < to
        invariant
            from <= i <= to <= v@.len(),
            out@ == old(out)@ + v@.subrange(from as int, i as int),
        decreases to - i,
    {
        push_char(out, v[i]);
        assert(v@.subrange(from as int, i + 1) =~= v@.subrange(from as int, i as int).push(v@[i as int]));
        i = i + 1;
    }
}

fn write_group3(out: &mut String, v: &Vec<char>, end: usize)
    requires
        end <= v@.len(),
    ensures
        final(out)@ == old(out)@ + group3(v@.take(end as int)),
    decreases end,
{
    if end <= 3 {
        push_chars(out, v, 0, end);
        assert(v@.subrange(0, end as int) =~= v@.take(end as int));
    } else {
        write_group3(out, v, end - 3);
        push_char(out, ',');
        push_chars(out, v, end - 3, end);
        let ghost t = v@.take(end as int);
        assert(t.take(t.len() - 3) =~= v@.take(end - 3));
        assert(t.skip(t.len() - 3) =~= v@.subrange(end - 3, end as int));
    }
}

/// Groups the integral part of a formatted number by thousands: `1234567.89` becomes
/// `1,234,567.89`.
pub fn group_thousands(text: &str) -> (r: String)
    ensures
        r@ == thousands(text@),
{
    let v = chars_of(text);
    proof { lemma_dot_index(text@); }
    let mut d: usize = 0;
    while d < v.len() && v[d] != '.'
        invariant
            d <= v@.len(),
            v@ == text@,
            d <= dot_index(text@),
            0 <= dot_index(text@) <= text@.len(),
            dot_index(text@) < text@.len() ==> text@[dot_index(text@)] == '.',
            forall|i: int| 0 <= i < dot_index(text@) ==> text@[i] != '.',
        decreases v@.len() - d,
    {
        d = d + 1;
    }
    assert(d == dot_index(text@));
    let mut r = String::new();
    write_group3(&mut r, &v, d);
    push_char(&mut r, '.');
    if d < v.len() {
        push_chars(&mut r, &v, d + 1, v.len());
        assert(v@.subrange(d + 1, v@.len() as int) =~= text@.skip(d + 1));
    } else {
        assert(r@ =~= thousands(text@));
    }
    r
}

} // verus!

use vstd::prelude::*;

verus! {

/// ASCII whitespace: space, tab, line feed, vertical tab, form feed and
/// carriage return.
pub open spec fn is_space(b: u8) -> bool {
    b == 0x20u8 || b == 0x09u8 || b == 0x0au8 || b == 0x0bu8 || b == 0x0cu8 || b == 0x0du8
}

/// The whitespace-separated words of `s`, in order, none of them empty.
pub open spec fn words(s: Seq<u8>) -> Seq<Seq<u8>>
    decreases s.len(),
{
    if s.len() == 0 {
        Seq::empty()
    } else {
        let prev = words(s.drop_last());
        let c = s.last();
        if is_space(c) {
            prev
        } else if s.len() == 1 || is_space(s[s.len() - 2]) {
            prev.push(seq![c])
        } else {
            prev.update(prev.len() - 1, prev.last().push(c))
        }
    }
}

pub open spec fn is_digit(b: u8) -> bool {
    0x30u8 <= b <= 0x39u8
}

pub open spec fn all_digits(s: Seq<u8>) -> bool {
    forall|i: int| 0 <= i < s.len() ==> is_digit(#[trigger] s[i])
}

/// The number written by the decimal digits `s`, most significant first.
pub open spec fn digits_value(s: Seq<u8>) -> nat
    decreases s.len(),
{
    if s.len() == 0 {
        0
    } else {
        digits_value(s.drop_last()) * 10 + (s.last() - 0x30u8) as nat
    }
}

/// The decimal digits of `n`, with no leading zeros (`0` for zero).
pub open spec fn nat_digits(n: nat) -> Seq<u8>
    decreases n,
{
    if n < 10 {
        seq![(0x30 + n) as u8]
    } else {
        nat_digits(n / 10).push((0x30 + n % 10) as u8)
    }
}

/// The non-negative integer written by `s`, if it is one and is at most
/// `limit`.
pub open spec fn nat_of(s: Seq<u8>, limit: nat) -> Option<nat> {
    if s.len() > 0 && all_digits(s) && digits_value(s) <= limit {
        Some(digits_value(s))
    } else {
        None
    }
}

/// Position of the first `.` in `s`, or its length if there is none.
pub open spec fn dot_pos(s: Seq<u8>) -> nat
    decreases s.len(),
{
    if s.len() == 0 {
        0
    } else if s[0] == 0x2eu8 {
        0
    } else {
        1 + dot_pos(s.skip(1))
    }
}

/// Value of the `i`-th digit of `s`, zero past its end.
pub open spec fn digit_at(s: Seq<u8>, i: int) -> nat {
    if i < s.len() {
        (s[i] - 0x30u8) as nat
    } else {
        0
    }
}

/// Thousandths given by the digits after the decimal point; digits past the
/// third are dropped.
pub open spec fn frac_milli(f: Seq<u8>) -> nat {
    digit_at(f, 0) * 100 + digit_at(f, 1) * 10 + digit_at(f, 2)
}

/// Thousandths written by an unsigned decimal `int[.frac]`, where either
/// part may be empty but not both.
pub open spec fn unsigned_fixed(b: Seq<u8>) -> Option<nat> {
    let k = dot_pos(b);
    let ip = b.take(k as int);
    let fp = if k < b.len() {
        b.skip(k as int + 1)
    } else {
        Seq::empty()
    };
    if all_digits(ip) && all_digits(fp) && ip.len() + fp.len() > 0 {
        Some(digits_value(ip) * 1000 + frac_milli(fp))
    } else {
        None
    }
}

/// The fixed-point number (in thousandths) written by `w`: an optional sign
/// and an unsigned decimal, within the range of `i32`. Exponents and the
/// names of infinities are not accepted.
#[verifier::opaque]
pub open spec fn fixed_of(w: Seq<u8>) -> Option<int> {
    if w.len() > 0 && w[0] == 0x2du8 {
        match unsigned_fixed(w.skip(1)) {
            Some(v) => if v <= 0x8000_0000 {
                Some(-v)
            } else {
                None
            },
            None => None,
        }
    } else {
        let b = if w.len() > 0 && w[0] == 0x2bu8 {
            w.skip(1)
        } else {
            w
        };
        match unsigned_fixed(b) {
            Some(v) => if v <= 0x7fff_ffff {
                Some(v as int)
            } else {
                None
            },
            None => None,
        }
    }
}

proof fn lemma_prefix_value_le(s: Seq<u8>, i: int)
    requires
        0 <= i <= s.len(),
    ensures
        digits_value(s.take(i)) <= digits_value(s),
    decreases s.len(),
{
    if i < s.len() {
        assert(s.drop_last().take(i) == s.take(i));
        lemma_prefix_value_le(s.drop_last(), i);
    } else {
        assert(s.take(i) == s);
    }
}

pub(crate) proof fn lemma_dot_pos(b: Seq<u8>, k: int)
    requires
        0 <= k <= b.len(),
        forall|j: int| 0 <= j < k ==> b[j] != 0x2eu8,
        k == b.len() || b[k] == 0x2eu8,
    ensures
        dot_pos(b) == k,
    decreases k,
{
    if k > 0 {
        assert forall|j: int| 0 <= j < k - 1 implies b.skip(1)[j] != 0x2eu8 by {
            assert(b.skip(1)[j] == b[j + 1]);
        }
        lemma_dot_pos(b.skip(1), k - 1);
    }
}

/// Reads the digits `s[from..to]` as a number no greater than `limit`.
pub fn parse_digits(s: &[u8], from: usize, to: usize, limit: u64) -> (r: Option<u64>)
    requires
        from <= to <= s@.len(),
    ensures
        match r {
            Some(v) => nat_of(s@.subrange(from as int, to as int), limit as nat) == Some(v as nat),
            None => nat_of(s@.subrange(from as int, to as int), limit as nat) is None,
        },
{
    let ghost t = s@.subrange(from as int, to as int);
    if from == to {
        return None;
    }
    let mut acc: u64 = 0;
    let mut i: usize = from;
    while i < to
        invariant
            from <= i <= to <= s@.len(),
            t == s@.subrange(from as int, to as int),
            all_digits(t.take(i - from)),
            acc as nat == digits_value(t.take(i - from)),
            acc <= limit,
        decreases to - i,
    {
        let c = s[i];
        let ghost pre = t.take(i - from);
        let ghost nxt = t.take(i - from + 1);
        assert(nxt.drop_last() == pre);
        assert(nxt.last() == c);
        if !(0x30u8 <= c && c <= 0x39u8) {
            assert(!is_digit(t[i - from]));
            return None;
        }
        let v: u128 = acc as u128 * 10 + (c - 0x30u8) as u128;
        if v > limit as u128 {
            proof {
                if all_digits(t) {
                    lemma_prefix_value_le(t, i - from + 1);
                }
            }
            return None;
        }
        acc = v as u64;
        i += 1;
    }
    assert(t.take(to - from) == t);
    Some(acc)
}

/// Checks that `s[from..to]` holds digits only.
fn all_digits_in(s: &[u8], from: usize, to: usize) -> (r: bool)
    requires
        from <= to <= s@.len(),
    ensures
        r == all_digits(s@.subrange(from as int, to as int)),
{
    let mut i: usize = from;
    while i < to
        invariant
            from <= i <= to <= s@.len(),
            forall|j: int| from <= j < i ==> is_digit(#[trigger] s@[j]),
        decreases to - i,
    {
        let c = s[i];
        if !(0x30u8 <= c && c <= 0x39u8) {
            assert(!is_digit(s@.subrange(from as int, to as int)[i - from]));
            return false;
        }
        i += 1;
    }
    assert forall|j: int| 0 <= j < to - from implies is_digit(
        #[trigger] s@.subrange(from as int, to as int)[j],
    ) by {
        assert(s@.subrange(from as int, to as int)[j] == s@[from + j]);
    }
    true
}

fn digit_value_at(s: &[u8], from: usize, to: usize, i: usize) -> (r: u64)
    requires
        from <= to <= s@.len(),
        all_digits(s@.subrange(from as int, to as int)),
    ensures
        r as nat == digit_at(s@.subrange(from as int, to as int), i as int),
        r <= 9,
{
    if i < to - from {
        assert(is_digit(s@.subrange(from as int, to as int)[i as int]));
        (s[from + i] - 0x30u8) as u64
    } else {
        0
    }
}

/// Reads an unsigned decimal `s[from..]` whose magnitude in thousandths is
/// at most `limit`.
fn parse_unsigned_fixed(s: &[u8], from: usize, limit: u64) -> (r: Option<u64>)
    requires
        from <= s@.len(),
        limit <= 0x8000_0000,
    ensures
        match r {
            Some(v) => unsigned_fixed(s@.skip(from as int)) == Some(v as nat) && v <= limit,
            None => unsigned_fixed(s@.skip(from as int)) is None || unsigned_fixed(
                s@.skip(from as int),
            )->Some_0 > limit,
        },
{
    let ghost b = s@.skip(from as int);
    let mut k: usize = from;
    while k < s.len() && s[k] != 0x2eu8
        invariant
            from <= k <= s@.len(),
            forall|j: int| from <= j < k ==> s@[j] != 0x2eu8,
        decreases s@.len() - k,
    {
        k += 1;
    }
    proof {
        assert forall|j: int| 0 <= j < k - from implies b[j] != 0x2eu8 by {
            assert(b[j] == s@[from + j]);
        }
        lemma_dot_pos(b, k - from);
        assert(b.take(k - from) == s@.subrange(from as int, k as int));
    }
    let fstart: usize = if k < s.len() { k + 1 } else { k };
    let ghost fp = if k - from < b.len() { b.skip(k - from + 1) } else { Seq::<u8>::empty() };
    assert(fp == s@.subrange(fstart as int, s@.len() as int));
    if k == from && fstart == s.len() {
        return None;
    }
    if !all_digits_in(s, fstart, s.len()) {
        return None;
    }
    let f0 = digit_value_at(s, fstart, s.len(), 0);
    let f1 = digit_value_at(s, fstart, s.len(), 1);
    let f2 = digit_value_at(s, fstart, s.len(), 2);
    let frac: u64 = f0 * 100 + f1 * 10 + f2;
    match parse_digits(s, from, k, 2_147_483) {
        None => {
            if k == from {
                assert(s@.subrange(from as int, k as int).len() == 0);
                assert(digits_value(s@.subrange(from as int, k as int)) == 0);
                assert(all_digits(s@.subrange(from as int, k as int)));
                let m: u64 = frac;
                if m > limit {
                    return None;
                }
                return Some(m);
            }
            None
        },
        Some(ip) => {
            let m: u64 = ip * 1000 + frac;
            if m > limit {
                return None;
            }
            Some(m)
        },
    }
}

/// Reads a signed fixed-point number, in thousandths, from `w`.
pub fn parse_fixed(w: &[u8]) -> (r: Option<i32>)
    ensures
        match r {
            Some(v) => fixed_of(w@) == Some(v as int),
            None => fixed_of(w@) is None,
        },
{
    proof {
        reveal(fixed_of);
    }
    if w.len() > 0 && w[0] == 0x2du8 {
        match parse_unsigned_fixed(w, 1, 0x8000_0000) {
            Some(v) => Some((-(v as i64)) as i32),
            None => None,
        }
    } else {
        let from: usize = if w.len() > 0 && w[0] == 0x2bu8 { 1 } else { 0 };
        assert(from == 0 ==> w@.skip(0) == w@);
        match parse_unsigned_fixed(w, from, 0x7fff_ffff) {
            Some(v) => Some(v as i32),
            None => None,
        }
    }
}

/// The contents of each of `v`.
pub open spec fn views(v: Seq<Vec<u8>>) -> Seq<Seq<u8>> {
    v.map_values(|w: Vec<u8>| w@)
}

/// Splits `line` at whitespace.
pub fn split_words(line: &[u8]) -> (r: Vec<Vec<u8>>)
    ensures
        views(r@) == words(line@),
{
    let mut acc: Vec<Vec<u8>> = Vec::new();
    let mut cur: Vec<u8> = Vec::new();
    let mut in_word: bool = false;
    let mut i: usize = 0;
    while i < line.len()
        invariant
            0 <= i <= line@.len(),
            in_word == (i > 0 && !is_space(line@[i - 1])),
            in_word ==> words(line@.take(i as int)) == views(acc@).push(cur@),
            !in_word ==> words(line@.take(i as int)) == views(acc@),
        decreases line@.len() - i,
    {
        let c = line[i];
        let ghost prev = line@.take(i as int);
        let ghost next = line@.take(i + 1);
        assert(next.drop_last() == prev);
        assert(next.last() == c);
        let is_sp = c == 0x20u8 || c == 0x09u8 || c == 0x0au8 || c == 0x0bu8 || c == 0x0cu8 || c
            == 0x0du8;
        if is_sp {
            if in_word {
                let ghost before = views(acc@);
                let ghost wv = cur@;
                let w = cur;
                cur = Vec::new();
                acc.push(w);
                assert(views(acc@) =~= before.push(wv));
            }
            in_word = false;
        } else {
            if in_word {
                assert(next[next.len() - 2] == line@[i - 1]);
                let ghost before = cur@;
                cur.push(c);
                assert(views(acc@).push(before).update(views(acc@).len() as int, before.push(c))
                    =~= views(acc@).push(cur@));
            } else {
                assert(i > 0 ==> next[next.len() - 2] == line@[i - 1]);
                cur = Vec::new();
                cur.push(c);
                assert(cur@ =~= seq![c]);
            }
            in_word = true;
        }
        i += 1;
    }
    if in_word {
        let ghost before = views(acc@);
        acc.push(cur);
        assert(views(acc@) =~= before.push(cur@));
    }
    assert(line@.take(line@.len() as int) =~= line@);
    acc
}


pub(crate) proof fn lemma_words_nonempty(s: Seq<u8>)
    requires
        s.len() > 0,
        !is_space(s.last()),
    ensures
        words(s).len() > 0,
    decreases s.len(),
{
    if s.len() > 1 && !is_space(s[s.len() - 2]) {
        assert(s.drop_last().last() == s[s.len() - 2]);
        lemma_words_nonempty(s.drop_last());
    }
}

/// A space splits words: the words of `a`, a space, then `b` are those of
/// `a` followed by those of `b`.
pub(crate) proof fn lemma_words_split(a: Seq<u8>, sp: u8, b: Seq<u8>)
    requires
        is_space(sp),
    ensures
        words(a + seq![sp] + b) == words(a) + words(b),
    decreases b.len(),
{
    let s = a + seq![sp] + b;
    if b.len() == 0 {
        assert(s.drop_last() =~= a);
        assert(words(a) + words(b) =~= words(a));
    } else {
        let b1 = b.drop_last();
        let c = b.last();
        lemma_words_split(a, sp, b1);
        assert(s.drop_last() =~= a + seq![sp] + b1);
        assert(s.last() == c);
        if b.len() > 1 {
            assert(s[s.len() - 2] == b[b.len() - 2]);
        } else {
            assert(s[s.len() - 2] == sp);
        }
        if is_space(c) {
        } else if b.len() == 1 || is_space(b[b.len() - 2]) {
            assert(words(a) + words(b1).push(seq![c]) =~= (words(a) + words(b1)).push(seq![c]));
        } else {
            assert(b1.last() == b[b.len() - 2]);
            lemma_words_nonempty(b1);
            let wb = words(b1);
            assert(words(a) + wb.update(wb.len() - 1, wb.last().push(c)) =~= (words(a) + wb).update(
                (words(a) + wb).len() - 1,
                (words(a) + wb).last().push(c),
            ));
        }
    }
}

/// A trailing space adds no word.
pub(crate) proof fn lemma_words_trailing(a: Seq<u8>, sp: u8)
    requires
        is_space(sp),
    ensures
        words(a + seq![sp]) == words(a),
{
    assert((a + seq![sp]).drop_last() =~= a);
}

/// A non-empty run without whitespace is one word.
pub(crate) proof fn lemma_words_single(t: Seq<u8>)
    requires
        t.len() > 0,
        forall|i: int| 0 <= i < t.len() ==> !is_space(#[trigger] t[i]),
    ensures
        words(t) == seq![t],
    decreases t.len(),
{
    let t1 = t.drop_last();
    if t.len() == 1 {
        assert(t1.len() == 0);
        assert(words(t1) == Seq::<Seq<u8>>::empty());
        assert(words(t) == words(t1).push(seq![t.last()]));
        assert(seq![t.last()] =~= t);
        assert(Seq::<Seq<u8>>::empty().push(seq![t.last()]) =~= seq![t]);
    } else {
        lemma_words_single(t1);
        assert(!is_space(t[t.len() - 2]));
        assert(!is_space(t.last()));
        let w1 = words(t1);
        assert(w1.len() == 1 && w1.last() == t1);
        assert(words(t) == w1.update(w1.len() - 1, w1.last().push(t.last())));
        assert(t1.push(t.last()) =~= t);
        assert(seq![t1].update(0, t1.push(t.last())) =~= seq![t]);
    }
}

pub(crate) proof fn lemma_nat_digits(n: nat)
    ensures
        nat_digits(n).len() > 0,
        all_digits(nat_digits(n)),
        digits_value(nat_digits(n)) == n,
    decreases n,
{
    if n < 10 {
        assert(nat_digits(n).drop_last() =~= Seq::<u8>::empty());
        assert(digits_value(nat_digits(n)) == digits_value(Seq::<u8>::empty()) * 10 + (nat_digits(n).last() - 0x30u8) as nat);
    } else {
        lemma_nat_digits(n / 10);
        let d = nat_digits(n / 10);
        assert(nat_digits(n).drop_last() =~= d);
        assert(nat_digits(n).last() == (0x30 + n % 10) as u8);
        assert(digits_value(nat_digits(n)) == digits_value(d) * 10 + (n % 10));
        assert forall|i: int| 0 <= i < nat_digits(n).len() implies is_digit(#[trigger] nat_digits(n)[i]) by {
            if i < d.len() {
                assert(nat_digits(n)[i] == d[i]);
            }
        }
    }
}

pub(crate) proof fn lemma_nat_of_digits(n: nat, limit: nat)
    requires
        n <= limit,
    ensures
        nat_of(nat_digits(n), limit) == Some(n),
{
    lemma_nat_digits(n);
}

} // verus!

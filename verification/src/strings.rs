//! Small pieces of text handling that several modules share: decimal
//! numbers, substring search, word counts, the order `str` sorts in, and
//! concatenating one piece of output per item.

use vstd::prelude::*;
use crate::date::digit;
use crate::text::{is_ws, is_ws_char, push_char};

verus! {

/// `n` written in decimal, as `usize`'s `Display` writes it.
pub open spec fn decimal(n: nat) -> Seq<char>
    decreases n,
{
    if n < 10 {
        seq![digit(n as int)]
    } else {
        decimal(n / 10) + seq![digit((n % 10) as int)]
    }
}

fn digit_char(n: usize) -> (c: char)
    requires
        n < 10,
    ensures
        c == digit(n as int),
{
    let b: u8 = (n as u8) + 48;
    b as char
}

/// Append `n` in decimal to `out`.
pub fn push_decimal(out: &mut String, n: usize)
    ensures
        final(out)@ == old(out)@ + decimal(n as nat),
    decreases n,
{
    if n >= 10 {
        push_decimal(out, n / 10);
    }
    push_char(out, digit_char(n % 10));
    assert(decimal(n as nat) == (if n < 10 {
        seq![digit(n as int)]
    } else {
        decimal((n / 10) as nat) + seq![digit((n % 10) as int)]
    }));
}

/// `n.to_string()`.
pub fn decimal_string(n: usize) -> (s: String)
    ensures
        s@ == decimal(n as nat),
{
    let mut s = String::new();
    push_decimal(&mut s, n);
    s
}

/// Whether `t` occurs in `s` as a run of consecutive characters: what
/// `str::contains` tests for a string pattern. The empty pattern occurs
/// everywhere.
pub open spec fn contains_seq(s: Seq<char>, t: Seq<char>) -> bool {
    exists|i: int| 0 <= i && i + t.len() <= s.len() && #[trigger] s.subrange(i, i + t.len()) == t
}

/// Whether `t` occurs in `s`.
pub fn contains_exec(s: &Vec<char>, t: &Vec<char>) -> (r: bool)
    ensures
        r == contains_seq(s@, t@),
{
    if t.len() == 0 {
        assert(contains_seq(s@, t@)) by {
            assert(s@.subrange(0, 0int + t@.len()) =~= t@);
        }
        return true;
    }
    if t.len() > s.len() {
        return false;
    }
    let mut i: usize = 0;
    while i <= s.len() && t.len() <= s.len() - i
        invariant
            1 <= t@.len() <= s@.len(),
            i <= s@.len(),
            forall|j: int| 0 <= j < i ==> #[trigger] s@.subrange(j, j + t@.len()) != t@,
        decreases s.len() - i,
    {
        let n = s.len();
        let mut k: usize = 0;
        let mut same = true;
        while k < t.len()
            invariant
                n == s@.len(),
                i + t@.len() <= s@.len(),
                k <= t@.len(),
                same == (forall|m: int| 0 <= m < k ==> s@[i + m] == t@[m]),
            decreases t.len() - k,
        {
            if s[i + k] != t[k] {
                same = false;
            }
            k += 1;
        }
        if same {
            assert(s@.subrange(i as int, i + t@.len()) =~= t@);
            return true;
        }
        assert(s@.subrange(i as int, i + t@.len()) != t@) by {
            let w = s@.subrange(i as int, i + t@.len());
            let m = choose|m: int| 0 <= m < t@.len() && s@[i + m] != t@[m];
            assert(w[m] != t@[m]);
        }
        i += 1;
    }
    assert forall|j: int| 0 <= j && j + t@.len() <= s@.len() implies #[trigger] s@.subrange(
        j,
        j + t@.len(),
    ) != t@ by {
        assert(j < i);
    }
    false
}

/// Whether a word of `s` starts at index `i`: a non-whitespace character at
/// the start or after whitespace.
pub open spec fn word_starts_at(s: Seq<char>, i: int) -> bool {
    &&& !is_ws(s[i])
    &&& (i == 0 || is_ws(s[i - 1]))
}

/// How many words the first `n` characters of `s` begin.
pub open spec fn words_upto(s: Seq<char>, n: int) -> nat
    decreases n,
{
    if n <= 0 {
        0
    } else {
        words_upto(s, n - 1) + if word_starts_at(s, n - 1) {
            1nat
        } else {
            0nat
        }
    }
}

/// The number of whitespace-separated words in `s`: what
/// `str::split_whitespace().count()` returns.
pub open spec fn word_count(s: Seq<char>) -> nat {
    words_upto(s, s.len() as int)
}

pub fn word_count_exec(s: &Vec<char>) -> (r: usize)
    ensures
        r == word_count(s@),
{
    let mut n: usize = 0;
    let mut i: usize = 0;
    while i < s.len()
        invariant
            i <= s@.len(),
            n == words_upto(s@, i as int),
            n <= i,
        decreases s.len() - i,
    {
        let starts = !is_ws_char(s[i]) && (i == 0 || is_ws_char(s[i - 1]));
        if starts {
            n += 1;
        }
        i += 1;
    }
    n
}

/// `a` sorts before `b` character by character, the order in which `str`
/// values compare (UTF-8 preserves the order of code points).
pub open spec fn seq_lt(a: Seq<char>, b: Seq<char>) -> bool
    decreases a.len(),
{
    if a.len() == 0 {
        b.len() > 0
    } else if b.len() == 0 {
        false
    } else if a[0] != b[0] {
        (a[0] as u32) < (b[0] as u32)
    } else {
        seq_lt(a.drop_first(), b.drop_first())
    }
}

pub fn seq_lt_exec(a: &Vec<char>, b: &Vec<char>) -> (r: bool)
    ensures
        r == seq_lt(a@, b@),
{
    let mut k: usize = 0;
    assert(a@.subrange(0, a@.len() as int) =~= a@);
    assert(b@.subrange(0, b@.len() as int) =~= b@);
    while k < a.len() && k < b.len() && a[k] == b[k]
        invariant
            k <= a@.len(),
            k <= b@.len(),
            seq_lt(a@, b@) == seq_lt(a@.subrange(k as int, a@.len() as int), b@.subrange(
                k as int,
                b@.len() as int,
            )),
        decreases a.len() - k,
    {
        let ghost sa = a@.subrange(k as int, a@.len() as int);
        let ghost sb = b@.subrange(k as int, b@.len() as int);
        assert(sa.drop_first() =~= a@.subrange(k + 1, a@.len() as int));
        assert(sb.drop_first() =~= b@.subrange(k + 1, b@.len() as int));
        k += 1;
    }
    let ghost sa = a@.subrange(k as int, a@.len() as int);
    let ghost sb = b@.subrange(k as int, b@.len() as int);
    if k == a.len() {
        k < b.len()
    } else if k == b.len() {
        false
    } else {
        assert(sa[0] == a@[k as int] && sb[0] == b@[k as int]);
        (a[k] as u32) < (b[k] as u32)
    }
}

pub proof fn lemma_seq_lt_irreflexive(a: Seq<char>)
    ensures
        !seq_lt(a, a),
    decreases a.len(),
{
    if a.len() > 0 {
        lemma_seq_lt_irreflexive(a.drop_first());
    }
}

/// One piece of output per item, concatenated in order.
pub open spec fn concat_map<A, B>(s: Seq<A>, f: spec_fn(A) -> Seq<B>) -> Seq<B>
    decreases s.len(),
{
    if s.len() == 0 {
        seq![]
    } else {
        concat_map(s.drop_last(), f) + f(s.last())
    }
}

pub proof fn lemma_concat_map_step<A, B>(s: Seq<A>, i: int, f: spec_fn(A) -> Seq<B>)
    requires
        0 <= i < s.len(),
    ensures
        concat_map(s.take(i + 1), f) == concat_map(s.take(i), f) + f(s[i]),
{
    assert(s.take(i + 1).drop_last() =~= s.take(i));
}


pub proof fn lemma_seq_lt_asymmetric(a: Seq<char>, b: Seq<char>)
    ensures
        seq_lt(a, b) ==> !seq_lt(b, a),
    decreases a.len(),
{
    if a.len() > 0 && b.len() > 0 && a[0] == b[0] {
        lemma_seq_lt_asymmetric(a.drop_first(), b.drop_first());
    }
}

pub proof fn lemma_seq_lt_transitive(a: Seq<char>, b: Seq<char>, c: Seq<char>)
    requires
        seq_lt(a, b),
        seq_lt(b, c),
    ensures
        seq_lt(a, c),
    decreases a.len(),
{
    if a.len() > 0 && b.len() > 0 && c.len() > 0 && a[0] == b[0] && b[0] == c[0] {
        lemma_seq_lt_transitive(a.drop_first(), b.drop_first(), c.drop_first());
    }
}

pub proof fn lemma_seq_lt_total(a: Seq<char>, b: Seq<char>)
    requires
        a != b,
    ensures
        seq_lt(a, b) || seq_lt(b, a),
    decreases a.len(),
{
    if a.len() > 0 && b.len() > 0 && a[0] == b[0] {
        if a.drop_first() == b.drop_first() {
            assert(a =~= seq![a[0]] + a.drop_first());
            assert(b =~= seq![b[0]] + b.drop_first());
        }
        lemma_seq_lt_total(a.drop_first(), b.drop_first());
    } else if a.len() > 0 && b.len() > 0 {
        lemma_char_code_injective(a[0], b[0]);
    } else if a.len() == 0 && b.len() == 0 {
        assert(a =~= b);
    }
}

proof fn lemma_char_code_injective(x: char, y: char)
    requires
        x != y,
    ensures
        (x as u32) != (y as u32),
{
    assert((x as u32) as int == x as int);
    assert((y as u32) as int == y as int);
}

/// `q` is in strictly increasing `str` order, so nothing in it occurs twice.
pub open spec fn strictly_sorted(q: Seq<Seq<char>>) -> bool {
    forall|i: int, j: int| 0 <= i < j < q.len() ==> seq_lt(#[trigger] q[i], #[trigger] q[j])
}

/// The members of `s` in increasing order.
pub open spec fn sorted_members(s: Set<Seq<char>>) -> Seq<Seq<char>> {
    choose|q: Seq<Seq<char>>| strictly_sorted(q) && forall|x: Seq<char>| #[trigger] q.contains(x) <==> s.contains(x)
}

/// Two sequences in strictly increasing order with the same members are the
/// same sequence.
pub proof fn lemma_sorted_unique(q1: Seq<Seq<char>>, q2: Seq<Seq<char>>)
    requires
        strictly_sorted(q1),
        strictly_sorted(q2),
        forall|x: Seq<char>|
            #![trigger q1.contains(x)]
            #![trigger q2.contains(x)]
            q1.contains(x) <==> q2.contains(x),
    ensures
        q1 == q2,
    decreases q1.len(),
{
    if q1.len() == 0 {
        if q2.len() > 0 {
            assert(q2.contains(q2[0]));
        }
        assert(q1 =~= q2);
    } else {
        assert(q1.contains(q1[0]));
        assert(q2.len() > 0);
        assert(q2.contains(q2[0]));
        let a = q1[0];
        let b = q2[0];
        if a != b {
            let i = choose|i: int| 0 <= i < q2.len() && q2[i] == a;
            let j = choose|j: int| 0 <= j < q1.len() && q1[j] == b;
            assert(i > 0);
            assert(j > 0);
            assert(seq_lt(b, a));
            assert(seq_lt(a, b));
            lemma_seq_lt_asymmetric(a, b);
        }
        let r1 = q1.drop_first();
        let r2 = q2.drop_first();
        assert forall|x: Seq<char>| #[trigger] r1.contains(x) <==> r2.contains(x) by {
            if r1.contains(x) {
                let i = choose|i: int| 0 <= i < r1.len() && r1[i] == x;
                assert(q1[i + 1] == x);
                assert(seq_lt(a, x));
                lemma_seq_lt_irreflexive(x);
                assert(q2.contains(x));
                let j = choose|j: int| 0 <= j < q2.len() && q2[j] == x;
                assert(j != 0);
                assert(r2[j - 1] == x);
            }
            if r2.contains(x) {
                let j = choose|j: int| 0 <= j < r2.len() && r2[j] == x;
                assert(q2[j + 1] == x);
                assert(seq_lt(b, x));
                lemma_seq_lt_irreflexive(x);
                assert(q1.contains(x));
                let i = choose|i: int| 0 <= i < q1.len() && q1[i] == x;
                assert(i != 0);
                assert(r1[i - 1] == x);
            }
        }
        assert(strictly_sorted(r1)) by {
            assert forall|i: int, j: int| 0 <= i < j < r1.len() implies seq_lt(
                #[trigger] r1[i],
                #[trigger] r1[j],
            ) by {
                assert(r1[i] == q1[i + 1] && r1[j] == q1[j + 1]);
            }
        }
        assert(strictly_sorted(r2)) by {
            assert forall|i: int, j: int| 0 <= i < j < r2.len() implies seq_lt(
                #[trigger] r2[i],
                #[trigger] r2[j],
            ) by {
                assert(r2[i] == q2[i + 1] && r2[j] == q2[j + 1]);
            }
        }
        lemma_sorted_unique(r1, r2);
        assert(q1 =~= seq![a] + r1);
        assert(q2 =~= seq![b] + r2);
    }
}

/// `s` with every occurrence of the non-empty `pat`, found left to right
/// without overlap from index `i` on, replaced by `rep`.
pub open spec fn replace_from(s: Seq<char>, pat: Seq<char>, rep: Seq<char>, i: int) -> Seq<char>
    decreases s.len() - i,
{
    if pat.len() == 0 || i < 0 || i >= s.len() {
        s.subrange(i, s.len() as int)
    } else if i + pat.len() <= s.len() && s.subrange(i, i + pat.len()) == pat {
        rep + replace_from(s, pat, rep, i + pat.len())
    } else {
        seq![s[i]] + replace_from(s, pat, rep, i + 1)
    }
}

/// What `str::replace` returns for a non-empty pattern.
pub open spec fn replace_all(s: Seq<char>, pat: Seq<char>, rep: Seq<char>) -> Seq<char> {
    replace_from(s, pat, rep, 0)
}

pub fn replace_exec(s: &Vec<char>, pat: &Vec<char>, rep: &Vec<char>) -> (r: Vec<char>)
    requires
        pat@.len() > 0,
    ensures
        r@ == replace_all(s@, pat@, rep@),
{
    let mut out: Vec<char> = Vec::new();
    let mut i: usize = 0;
    while i < s.len()
        invariant
            i <= s@.len(),
            pat@.len() > 0,
            out@ + replace_from(s@, pat@, rep@, i as int) == replace_all(s@, pat@, rep@),
        decreases s.len() - i,
    {
        let ghost o = out@;
        let n = s.len();
        let mut hit = pat.len() <= n - i;
        if hit {
            let mut k: usize = 0;
            while k < pat.len()
                invariant
                    n == s@.len(),
                    i + pat@.len() <= s@.len(),
                    k <= pat@.len(),
                    hit == (forall|m: int| 0 <= m < k ==> s@[i + m] == pat@[m]),
                decreases pat.len() - k,
            {
                if s[i + k] != pat[k] {
                    hit = false;
                }
                k += 1;
            }
            if hit {
                assert(s@.subrange(i as int, i + pat@.len()) =~= pat@);
            } else {
                assert(s@.subrange(i as int, i + pat@.len()) != pat@) by {
                    let m = choose|m: int| 0 <= m < pat@.len() && s@[i + m] != pat@[m];
                    assert(s@.subrange(i as int, i + pat@.len())[m] != pat@[m]);
                }
            }
        }
        if hit {
            let mut k: usize = 0;
            while k < rep.len()
                invariant
                    k <= rep@.len(),
                    out@ == o + rep@.subrange(0, k as int),
                decreases rep.len() - k,
            {
                out.push(rep[k]);
                assert(rep@.subrange(0, k + 1) =~= rep@.subrange(0, k as int).push(rep@[k as int]));
                k += 1;
            }
            assert(rep@.subrange(0, rep@.len() as int) =~= rep@);
            assert(out@ + replace_from(s@, pat@, rep@, i + pat@.len()) =~= o + replace_from(
                s@,
                pat@,
                rep@,
                i as int,
            ));
            i = i + pat.len();
        } else {
            out.push(s[i]);
            assert(out@ + replace_from(s@, pat@, rep@, i + 1) =~= o + replace_from(
                s@,
                pat@,
                rep@,
                i as int,
            ));
            i = i + 1;
        }
    }
    assert(replace_from(s@, pat@, rep@, i as int) =~= Seq::<char>::empty());
    assert(out@ + Seq::<char>::empty() =~= out@);
    out
}


/// The position of the least of the distinct strings in `v`.
fn least_of(v: &Vec<String>) -> (m: usize)
    requires
        v@.len() > 0,
        forall|i: int, j: int| 0 <= i < j < v@.len() ==> #[trigger] v@[i]@ != #[trigger] v@[j]@,
    ensures
        m < v@.len(),
        forall|j: int| 0 <= j < v@.len() && j != m ==> seq_lt(v@[m as int]@, #[trigger] v@[j]@),
{
    let mut m: usize = 0;
    let mut i: usize = 1;
    while i < v.len()
        invariant
            1 <= i <= v@.len(),
            m < i,
            forall|a: int, b: int| 0 <= a < b < v@.len() ==> #[trigger] v@[a]@ != #[trigger] v@[b]@,
            forall|j: int| 0 <= j < i && j != m ==> seq_lt(v@[m as int]@, #[trigger] v@[j]@),
        decreases v.len() - i,
    {
        let a = crate::text::chars_of(v[i].as_str());
        let b = crate::text::chars_of(v[m].as_str());
        if seq_lt_exec(&a, &b) {
            proof {
                assert forall|j: int| 0 <= j < i + 1 && j != i implies seq_lt(
                    v@[i as int]@,
                    #[trigger] v@[j]@,
                ) by {
                    if j != m {
                        lemma_seq_lt_transitive(v@[i as int]@, v@[m as int]@, v@[j]@);
                    }
                }
            }
            m = i;
        } else {
            proof {
                lemma_seq_lt_total(v@[i as int]@, v@[m as int]@);
            }
        }
        i += 1;
    }
    m
}

/// The characters of each string.
pub open spec fn strs(v: Seq<String>) -> Seq<Seq<char>> {
    Seq::new(v.len(), |i: int| v[i]@)
}

proof fn lemma_contains_push(s: Seq<Seq<char>>, x: Seq<char>, y: Seq<char>)
    ensures
        s.push(x).contains(y) <==> (s.contains(y) || x == y),
{
    if s.contains(y) {
        let t = choose|t: int| 0 <= t < s.len() && s[t] == y;
        assert(s.push(x)[t] == y);
    }
    if x == y {
        assert(s.push(x)[s.len() as int] == y);
    }
    if s.push(x).contains(y) {
        let t = choose|t: int| 0 <= t < s.push(x).len() && s.push(x)[t] == y;
        if t < s.len() {
            assert(s[t] == y);
        }
    }
}

proof fn lemma_contains_remove(s: Seq<Seq<char>>, m: int, y: Seq<char>)
    requires
        0 <= m < s.len(),
    ensures
        s.contains(y) <==> (s.remove(m).contains(y) || s[m] == y),
{
    let r = s.remove(m);
    if s.contains(y) {
        let t = choose|t: int| 0 <= t < s.len() && s[t] == y;
        if t < m {
            assert(r[t] == y);
        } else if t > m {
            assert(r[t - 1] == y);
        }
    }
    if r.contains(y) {
        let t = choose|t: int| 0 <= t < r.len() && r[t] == y;
        if t < m {
            assert(s[t] == y);
        } else {
            assert(s[t + 1] == y);
        }
    }
}

/// The distinct strings of `v` in increasing order.
pub fn sort_distinct(v: Vec<String>) -> (q: Vec<String>)
    requires
        forall|i: int, j: int| 0 <= i < j < v@.len() ==> #[trigger] v@[i]@ != #[trigger] v@[j]@,
    ensures
        strictly_sorted(q.deep_view()),
        forall|x: Seq<char>| #[trigger] q.deep_view().contains(x) <==> v.deep_view().contains(x),
{
    let ghost orig = strs(v@);
    assert(v.deep_view() =~= orig);
    let mut rest = v;
    let mut out: Vec<String> = Vec::new();
    while rest.len() > 0
        invariant
            forall|i: int, j: int|
                0 <= i < j < rest@.len() ==> #[trigger] rest@[i]@ != #[trigger] rest@[j]@,
            strictly_sorted(strs(out@)),
            forall|i: int, j: int|
                0 <= i < out@.len() && 0 <= j < rest@.len() ==> seq_lt(
                    #[trigger] out@[i]@,
                    #[trigger] rest@[j]@,
                ),
            forall|x: Seq<char>|
                #![trigger orig.contains(x)]
                (strs(out@).contains(x) || strs(rest@).contains(x)) <==> orig.contains(x),
        decreases rest@.len(),
    {
        let m = least_of(&rest);
        let ghost o0 = out@;
        let ghost r0 = rest@;
        let x = rest.remove(m);
        out.push(x);
        proof {
            assert(strs(out@) =~= strs(o0).push(r0[m as int]@));
            assert(strs(rest@) =~= strs(r0).remove(m as int));
            let od = strs(out@);
            assert forall|i: int, j: int| 0 <= i < j < od.len() implies seq_lt(
                #[trigger] od[i],
                #[trigger] od[j],
            ) by {
                assert(od[i] == out@[i]@);
                assert(od[j] == out@[j]@);
                if j == od.len() - 1 {
                    assert(out@[i] == o0[i]);
                    assert(out@[j] == r0[m as int]);
                } else {
                    assert(strs(o0)[i] == o0[i]@ && strs(o0)[j] == o0[j]@);
                    assert(out@[i] == o0[i] && out@[j] == o0[j]);
                }
            }
            assert forall|i: int, j: int|
                0 <= i < out@.len() && 0 <= j < rest@.len() implies seq_lt(
                #[trigger] out@[i]@,
                #[trigger] rest@[j]@,
            ) by {
                let jj = if j < m {
                    j
                } else {
                    j + 1
                };
                assert(rest@[j] == r0[jj]);
                if i < o0.len() {
                    assert(out@[i] == o0[i]);
                } else {
                    assert(out@[i] == r0[m as int]);
                }
            }
            assert forall|a: int, b: int| 0 <= a < b < rest@.len() implies #[trigger] rest@[a]@
                != #[trigger] rest@[b]@ by {
                let aa = if a < m {
                    a
                } else {
                    a + 1
                };
                let bb = if b < m {
                    b
                } else {
                    b + 1
                };
                assert(rest@[a] == r0[aa] && rest@[b] == r0[bb]);
            }
            assert forall|y: Seq<char>|
                (strs(out@).contains(y) || strs(rest@).contains(y)) <==> #[trigger] orig.contains(
                    y,
                ) by {
                lemma_contains_push(strs(o0), r0[m as int]@, y);
                lemma_contains_remove(strs(r0), m as int, y);
                assert(strs(r0)[m as int] == r0[m as int]@);
                assert(strs(o0).contains(y) || strs(r0).contains(y) <==> orig.contains(y));
            }
        }
    }
    proof {
        assert(out.deep_view() =~= strs(out@));
        assert forall|y: Seq<char>| #[trigger] out.deep_view().contains(y) <==> v.deep_view().contains(
            y,
        ) by {
            assert(orig.contains(y) <==> (strs(out@).contains(y) || strs(rest@).contains(y)));
            if strs(rest@).contains(y) {
                let t = choose|t: int| 0 <= t < strs(rest@).len() && strs(rest@)[t] == y;
            }
        }
    }
    out
}


pub proof fn lemma_contains_left(a: Seq<char>, b: Seq<char>, t: Seq<char>)
    requires
        contains_seq(a, t),
    ensures
        contains_seq(a + b, t),
{
    let i = choose|i: int| 0 <= i && i + t.len() <= a.len() && #[trigger] a.subrange(i, i + t.len()) == t;
    assert((a + b).subrange(i, i + t.len()) =~= a.subrange(i, i + t.len()));
}

pub proof fn lemma_contains_right(a: Seq<char>, b: Seq<char>, t: Seq<char>)
    requires
        contains_seq(b, t),
    ensures
        contains_seq(a + b, t),
{
    let i = choose|i: int| 0 <= i && i + t.len() <= b.len() && #[trigger] b.subrange(i, i + t.len()) == t;
    assert((a + b).subrange(a.len() + i, a.len() + i + t.len()) =~= b.subrange(i, i + t.len()));
}

pub proof fn lemma_contains_self(a: Seq<char>)
    ensures
        contains_seq(a, a),
{
    assert(a.subrange(0, 0int + a.len()) =~= a);
}

/// A text that contains `u` contains each piece of `u`.
pub proof fn lemma_contains_part(a: Seq<char>, x: Seq<char>, t: Seq<char>, y: Seq<char>)
    requires
        contains_seq(a, x + t + y),
    ensures
        contains_seq(a, t),
{
    let u = x + t + y;
    let i = choose|i: int| 0 <= i && i + u.len() <= a.len() && #[trigger] a.subrange(i, i + u.len()) == u;
    assert(a.subrange(i + x.len(), i + x.len() + t.len()) =~= t) by {
        assert forall|q: int| 0 <= q < t.len() implies a.subrange(i + x.len(), i + x.len() + t.len())[q]
            == t[q] by {
            assert(a.subrange(i, i + u.len())[x.len() + q] == u[x.len() + q]);
        }
    }
}

/// Whether an occurrence of `pat` starts at `j` in `s`.
pub open spec fn starts_at(s: Seq<char>, pat: Seq<char>, j: int) -> bool {
    0 <= j && j + pat.len() <= s.len() && s.subrange(j, j + pat.len()) == pat
}

/// Where no occurrence of the pattern starts, replacing copies the text.
pub proof fn lemma_replace_copies(s: Seq<char>, pat: Seq<char>, rep: Seq<char>, lo: int, hi: int)
    requires
        pat.len() > 0,
        0 <= lo <= hi <= s.len(),
        forall|j: int| lo <= j < hi ==> !#[trigger] starts_at(s, pat, j),
    ensures
        replace_from(s, pat, rep, lo) == s.subrange(lo, hi) + replace_from(s, pat, rep, hi),
    decreases hi - lo,
{
    if lo < hi {
        assert(!starts_at(s, pat, lo));
        lemma_replace_copies(s, pat, rep, lo + 1, hi);
        assert(s.subrange(lo, hi) =~= seq![s[lo]] + s.subrange(lo + 1, hi));
    } else {
        assert(s.subrange(lo, hi) =~= Seq::<char>::empty());
    }
}

/// Replacing from `j` reaches `m` without stepping over it when every
/// occurrence that starts before `m` also ends by `m`: what comes out is some
/// text followed by the replacement from `m` on.
pub proof fn lemma_replace_reaches(s: Seq<char>, pat: Seq<char>, rep: Seq<char>, j: int, m: int) -> (z: Seq<char>)
    requires
        pat.len() > 0,
        0 <= j <= m <= s.len(),
        forall|k: int| j <= k < m && #[trigger] starts_at(s, pat, k) ==> k + pat.len() <= m,
    ensures
        replace_from(s, pat, rep, j) == z + replace_from(s, pat, rep, m),
    decreases m - j,
{
    if j == m {
        assert(Seq::<char>::empty() + replace_from(s, pat, rep, m) =~= replace_from(s, pat, rep, m));
        Seq::<char>::empty()
    } else if starts_at(s, pat, j) {
        let z2 = lemma_replace_reaches(s, pat, rep, j + pat.len(), m);
        assert(rep + z2 + replace_from(s, pat, rep, m) =~= rep + (z2 + replace_from(s, pat, rep, m)));
        rep + z2
    } else {
        let z2 = lemma_replace_reaches(s, pat, rep, j + 1, m);
        assert(seq![s[j]] + z2 + replace_from(s, pat, rep, m) =~= seq![s[j]] + (z2 + replace_from(
            s,
            pat,
            rep,
            m,
        )));
        seq![s[j]] + z2
    }
}

/// Whether no character of `a` occurs in `b`.
pub open spec fn disjoint_chars(a: Seq<char>, b: Seq<char>) -> bool {
    forall|i: int, j: int| 0 <= i < a.len() && 0 <= j < b.len() ==> a[i] != b[j]
}

/// Every character of a number written in decimal is a digit.
pub proof fn lemma_decimal_digits(n: nat)
    ensures
        decimal(n).len() > 0,
        forall|k: int| 0 <= k < decimal(n).len() ==> 48 <= (#[trigger] decimal(n)[k]) as u32 <= 57,
    decreases n,
{
    if n >= 10 {
        lemma_decimal_digits(n / 10);
        let d = (n % 10) as int;
        assert(48 <= digit(d) as u32 <= 57);
        assert forall|k: int| 0 <= k < decimal(n).len() implies 48 <= (#[trigger] decimal(n)[k]) as u32
            <= 57 by {
            if k < decimal(n / 10).len() {
                assert(decimal(n)[k] == decimal(n / 10)[k]);
            } else {
                assert(decimal(n)[k] == digit(d));
            }
        }
    } else {
        assert(48 <= digit(n as int) as u32 <= 57);
    }
}

/// Up to the first character of the replacement, replacing has copied the
/// text as it was.
proof fn lemma_replace_copied_prefix(s: Seq<char>, pat: Seq<char>, rep: Seq<char>, j: int, l: int)
    requires
        pat.len() > 0,
        rep.len() > 0,
        0 <= j <= s.len(),
        0 <= l <= replace_from(s, pat, rep, j).len(),
        forall|q: int, p: int|
            0 <= q < l && 0 <= p < rep.len() ==> replace_from(s, pat, rep, j)[q] != rep[p],
    ensures
        j + l <= s.len(),
        replace_from(s, pat, rep, j).subrange(0, l) == s.subrange(j, j + l),
    decreases s.len() - j,
{
    let out = replace_from(s, pat, rep, j);
    if l == 0 {
        assert(out.subrange(0, 0) =~= s.subrange(j, j));
    } else if j == s.len() {
    } else if starts_at(s, pat, j) {
        assert(out[0] == rep[0]);
    } else {
        let r = replace_from(s, pat, rep, j + 1);
        assert(out == seq![s[j]] + r);
        assert forall|q: int, p: int| 0 <= q < l - 1 && 0 <= p < rep.len() implies r[q] != rep[p] by {
            assert(r[q] == out[q + 1]);
        }
        lemma_replace_copied_prefix(s, pat, rep, j + 1, l - 1);
        assert(out.subrange(0, l) =~= seq![s[j]] + r.subrange(0, l - 1));
        assert(s.subrange(j, j + l) =~= seq![s[j]] + s.subrange(j + 1, j + l));
    }
}

/// When the replacement is not empty and shares no character with the
/// pattern, no occurrence of the pattern is left after replacing.
pub proof fn lemma_replace_leaves_none(s: Seq<char>, pat: Seq<char>, rep: Seq<char>, j: int)
    requires
        pat.len() > 0,
        rep.len() > 0,
        0 <= j <= s.len(),
        disjoint_chars(rep, pat),
    ensures
        !contains_seq(replace_from(s, pat, rep, j), pat),
    decreases s.len() - j,
{
    let out = replace_from(s, pat, rep, j);
    if j == s.len() {
        assert(out.len() == 0);
    } else if starts_at(s, pat, j) {
        let r = replace_from(s, pat, rep, j + pat.len());
        lemma_replace_leaves_none(s, pat, rep, j + pat.len());
        assert(out == rep + r);
        if contains_seq(out, pat) {
            let i = choose|i: int|
                0 <= i && i + pat.len() <= out.len() && #[trigger] out.subrange(i, i + pat.len())
                    == pat;
            if i < rep.len() {
                assert(out.subrange(i, i + pat.len())[0] == out[i]);
                assert(out[i] == rep[i]);
            } else {
                assert(r.subrange(i - rep.len(), i - rep.len() + pat.len()) =~= out.subrange(
                    i,
                    i + pat.len(),
                ));
            }
        }
    } else {
        let r = replace_from(s, pat, rep, j + 1);
        lemma_replace_leaves_none(s, pat, rep, j + 1);
        assert(out == seq![s[j]] + r);
        if contains_seq(out, pat) {
            let i = choose|i: int|
                0 <= i && i + pat.len() <= out.len() && #[trigger] out.subrange(i, i + pat.len())
                    == pat;
            if i >= 1 {
                assert(r.subrange(i - 1, i - 1 + pat.len()) =~= out.subrange(i, i + pat.len()));
            } else {
                assert forall|q: int, p: int|
                    0 <= q < pat.len() - 1 && 0 <= p < rep.len() implies r[q] != rep[p] by {
                    assert(r[q] == out.subrange(0, pat.len() as int)[q + 1]);
                }
                lemma_replace_copied_prefix(s, pat, rep, j + 1, pat.len() - 1);
                assert(s.subrange(j, j + pat.len()) =~= pat) by {
                    assert forall|q: int| 0 <= q < pat.len() implies s.subrange(j, j + pat.len())[q]
                        == pat[q] by {
                        assert(out.subrange(0, pat.len() as int)[q] == pat[q]);
                        if q > 0 {
                            assert(r.subrange(0, pat.len() - 1)[q - 1] == s.subrange(
                                j + 1,
                                j + pat.len(),
                            )[q - 1]);
                        }
                    }
                }
            }
        }
    }
}

/// What contains `t` contains every text `t` contains.
pub proof fn lemma_contains_trans(a: Seq<char>, t: Seq<char>, u: Seq<char>)
    requires
        contains_seq(a, t),
        contains_seq(t, u),
    ensures
        contains_seq(a, u),
{
    let i = choose|i: int| 0 <= i && i + t.len() <= a.len() && #[trigger] a.subrange(i, i + t.len()) == t;
    let j = choose|j: int| 0 <= j && j + u.len() <= t.len() && #[trigger] t.subrange(j, j + u.len()) == u;
    assert(a.subrange(i + j, i + j + u.len()) =~= u) by {
        assert forall|q: int| 0 <= q < u.len() implies a.subrange(i + j, i + j + u.len())[q] == u[q] by {
            assert(a.subrange(i, i + t.len())[j + q] == t[j + q]);
            assert(t.subrange(j, j + u.len())[q] == u[q]);
        }
    }
}

/// Each piece of a `concat_map` stands in it.
pub proof fn lemma_concat_map_piece<A>(s: Seq<A>, f: spec_fn(A) -> Seq<char>, m: int)
    requires
        0 <= m < s.len(),
    ensures
        contains_seq(concat_map(s, f), f(s[m])),
    decreases s.len(),
{
    let d = s.drop_last();
    if m == s.len() - 1 {
        lemma_contains_self(f(s[m]));
        lemma_contains_right(concat_map(d, f), f(s.last()), f(s[m]));
    } else {
        lemma_concat_map_piece(d, f, m);
        assert(d[m] == s[m]);
        lemma_contains_left(concat_map(d, f), f(s.last()), f(s[m]));
    }
}

} // verus!

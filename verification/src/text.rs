//! Ordering of names.
//!
//! Child and parent listings are sorted ascending by name,
//! case-sensitively. The order is lexicographic on the sequence of
//! characters (code points), which for UTF-8 strings coincides with byte
//! order. Everything here is verified: the comparison walks the
//! characters itself and the sort is a plain insertion sort.

use vstd::multiset::Multiset;
use vstd::prelude::*;
use vstd::seq_lib::*;
use vstd::string::*;

verus! {

/// Lexicographic "less or equal" on character sequences: the empty
/// sequence comes first, otherwise the first differing character decides.
pub open spec fn lex_le(a: Seq<char>, b: Seq<char>) -> bool
    decreases a.len(),
{
    if a.len() == 0 {
        true
    } else if b.len() == 0 {
        false
    } else if a[0] != b[0] {
        (a[0] as u32) < (b[0] as u32)
    } else {
        lex_le(a.skip(1), b.skip(1))
    }
}

/// `lex_le` is total: of any two sequences one is less-or-equal the other.
pub proof fn lemma_lex_le_total(a: Seq<char>, b: Seq<char>)
    ensures
        lex_le(a, b) || lex_le(b, a),
    decreases a.len(),
{
    if a.len() != 0 && b.len() != 0 {
        if a[0] == b[0] {
            lemma_lex_le_total(a.skip(1), b.skip(1));
        } else {
            vstd::utf8::char_u32_cast(a[0], a[0] as u32);
            vstd::utf8::char_u32_cast(b[0], b[0] as u32);
            assert(a[0] as u32 != b[0] as u32);
        }
    }
}

/// `lex_le` is transitive.
pub proof fn lemma_lex_le_trans(a: Seq<char>, b: Seq<char>, c: Seq<char>)
    requires
        lex_le(a, b),
        lex_le(b, c),
    ensures
        lex_le(a, c),
    decreases a.len(),
{
    if a.len() != 0 && b.len() != 0 && c.len() != 0 && a[0] == b[0] && b[0] == c[0] {
        lemma_lex_le_trans(a.skip(1), b.skip(1), c.skip(1));
    }
}

/// Compares two strings in lexicographic character order.
pub fn str_le(a: &str, b: &str) -> (r: bool)
    ensures
        r == lex_le(a@, b@),
{
    let alen = a.unicode_len();
    let blen = b.unicode_len();
    let mut i: usize = 0;
    proof {
        assert(a@.skip(0) =~= a@);
        assert(b@.skip(0) =~= b@);
    }
    loop
        invariant
            i <= alen,
            i <= blen,
            alen == a@.len(),
            blen == b@.len(),
            lex_le(a@, b@) == lex_le(a@.skip(i as int), b@.skip(i as int)),
        decreases alen - i,
    {
        if i >= alen {
            return true;
        }
        if i >= blen {
            return false;
        }
        let ca = a.get_char(i);
        let cb = b.get_char(i);
        if ca != cb {
            return (ca as u32) < (cb as u32);
        }
        proof {
            assert(a@.skip(i as int).skip(1) =~= a@.skip(i as int + 1));
            assert(b@.skip(i as int).skip(1) =~= b@.skip(i as int + 1));
        }
        i = i + 1;
    }
}

/// The character for one decimal digit.
pub open spec fn digit_char(d: nat) -> char {
    if d == 0 {
        '0'
    } else if d == 1 {
        '1'
    } else if d == 2 {
        '2'
    } else if d == 3 {
        '3'
    } else if d == 4 {
        '4'
    } else if d == 5 {
        '5'
    } else if d == 6 {
        '6'
    } else if d == 7 {
        '7'
    } else if d == 8 {
        '8'
    } else {
        '9'
    }
}

/// The decimal digits of `n`, most significant first, no leading zeros
/// (just `"0"` for zero).
pub open spec fn dec_rep(n: nat) -> Seq<char>
    decreases n,
{
    if n < 10 {
        seq![digit_char(n)]
    } else {
        dec_rep(n / 10).push(digit_char(n % 10))
    }
}

/// One decimal digit as a string.
fn digit_str(d: usize) -> (r: &'static str)
    requires
        d < 10,
    ensures
        r@ == seq![digit_char(d as nat)],
{
    proof {
        reveal_strlit("0");
        reveal_strlit("1");
        reveal_strlit("2");
        reveal_strlit("3");
        reveal_strlit("4");
        reveal_strlit("5");
        reveal_strlit("6");
        reveal_strlit("7");
        reveal_strlit("8");
        reveal_strlit("9");
    }
    if d == 0 {
        proof {
            assert("0"@ =~= seq![digit_char(0)]);
        }
        "0"
    } else if d == 1 {
        proof {
            assert("1"@ =~= seq![digit_char(1)]);
        }
        "1"
    } else if d == 2 {
        proof {
            assert("2"@ =~= seq![digit_char(2)]);
        }
        "2"
    } else if d == 3 {
        proof {
            assert("3"@ =~= seq![digit_char(3)]);
        }
        "3"
    } else if d == 4 {
        proof {
            assert("4"@ =~= seq![digit_char(4)]);
        }
        "4"
    } else if d == 5 {
        proof {
            assert("5"@ =~= seq![digit_char(5)]);
        }
        "5"
    } else if d == 6 {
        proof {
            assert("6"@ =~= seq![digit_char(6)]);
        }
        "6"
    } else if d == 7 {
        proof {
            assert("7"@ =~= seq![digit_char(7)]);
        }
        "7"
    } else if d == 8 {
        proof {
            assert("8"@ =~= seq![digit_char(8)]);
        }
        "8"
    } else {
        proof {
            assert("9"@ =~= seq![digit_char(9)]);
        }
        "9"
    }
}

/// Renders a number in decimal.
pub fn usize_to_string(n: usize) -> (r: String)
    ensures
        r@ == dec_rep(n as nat),
{
    let mut out = String::new();
    let mut m = n;
    loop
        invariant_except_break
            (out@ == Seq::<char>::empty() && m == n) || (m >= 1 && dec_rep(n as nat) == dec_rep(
                m as nat,
            ) + out@),
        ensures
            dec_rep(n as nat) == out@,
        decreases m,
    {
        let ghost pre_out = out@;
        let ghost pre_m = m;
        let d = m % 10;
        m = m / 10;
        let mut ns = digit_str(d).to_owned();
        ns.append(out.as_str());
        out = ns;
        proof {
            if pre_out == Seq::<char>::empty() && pre_m == n {
                if n < 10 {
                    assert(out@ =~= dec_rep(n as nat));
                } else {
                    assert(dec_rep(n as nat) == dec_rep(pre_m as nat / 10).push(
                        digit_char(pre_m as nat % 10),
                    ));
                    assert(dec_rep(n as nat) =~= dec_rep(m as nat) + out@);
                }
            } else {
                if pre_m < 10 {
                    assert(dec_rep(pre_m as nat) == seq![digit_char(pre_m as nat)]);
                    assert(out@ =~= dec_rep(pre_m as nat) + pre_out);
                    assert(dec_rep(n as nat) == out@);
                } else {
                    assert(dec_rep(pre_m as nat) == dec_rep(pre_m as nat / 10).push(
                        digit_char(pre_m as nat % 10),
                    ));
                    assert(dec_rep(m as nat) + out@ =~= dec_rep(pre_m as nat) + pre_out);
                }
            }
        }
        if m == 0 {
            break ;
        }
    }
    out
}

/// A sequence of (name, payload) pairs sorted ascending by name.
pub open spec fn sorted_pairs<A>(s: Seq<(String, A)>) -> bool {
    forall|i: int, j: int| 0 <= i < j < s.len() ==> lex_le(s[i].0@, s[j].0@)
}

/// Inserting anywhere in a sequence adds exactly that element to its
/// multiset.
pub proof fn lemma_insert_multiset<A>(s: Seq<A>, pos: int, x: A)
    requires
        0 <= pos <= s.len(),
    ensures
        s.insert(pos, x).to_multiset() == s.to_multiset().insert(x),
{
    broadcast use group_to_multiset_ensures;

    let left = s.take(pos);
    let right = s.skip(pos);
    assert(s.insert(pos, x) =~= left.push(x) + right);
    assert(s =~= left + right);
    lemma_multiset_commutative(left.push(x), right);
    lemma_multiset_commutative(left, right);
    assert(s.insert(pos, x).to_multiset() =~= s.to_multiset().insert(x));
}

/// Sequences with equal multisets still have equal multisets after
/// applying the same function to every element.
pub proof fn lemma_map_values_multiset<A, B>(a: Seq<A>, b: Seq<A>, f: spec_fn(A) -> B)
    requires
        a.to_multiset() == b.to_multiset(),
    ensures
        a.map_values(f).to_multiset() == b.map_values(f).to_multiset(),
    decreases a.len(),
{
    broadcast use group_to_multiset_ensures;
    broadcast use vstd::multiset::group_multiset_axioms;

    if a.len() == 0 {
        assert(a.to_multiset().len() == 0);
        assert(b.len() == 0);
        assert(a.map_values(f) =~= Seq::<B>::empty());
        assert(b.map_values(f) =~= Seq::<B>::empty());
    } else {
        let x = a[0];
        let am = a.map_values(f);
        let bm = b.map_values(f);
        assert(a.contains(x));
        assert(a.to_multiset().count(x) > 0);
        assert(b.to_multiset().count(x) > 0);
        assert(b.contains(x));
        let j = choose|j: int| 0 <= j < b.len() && b[j] == x;
        assert(a.remove(0).to_multiset() =~= a.to_multiset().remove(x));
        assert(b.remove(j).to_multiset() =~= b.to_multiset().remove(x));
        lemma_map_values_multiset(a.remove(0), b.remove(j), f);
        assert(am.remove(0) =~= a.remove(0).map_values(f));
        assert(bm.remove(j) =~= b.remove(j).map_values(f));
        assert(am.remove(0).to_multiset() =~= am.to_multiset().remove(am[0]));
        assert(bm.remove(j).to_multiset() =~= bm.to_multiset().remove(bm[j]));
        assert(am[0] == f(x));
        assert(bm[j] == f(x));
        assert(am.to_multiset().remove(f(x)) == bm.to_multiset().remove(f(x)));
        assert(am.contains(f(x)));
        assert(am.to_multiset().count(f(x)) > 0);
        assert(bm.contains(f(x)));
        assert(bm.to_multiset().count(f(x)) > 0);
        assert forall|y: B| am.to_multiset().count(y) == #[trigger] bm.to_multiset().count(y) by {
            assert(am.to_multiset().remove(f(x)).count(y) == bm.to_multiset().remove(f(x)).count(
                y,
            ));
        }
        assert(am.to_multiset() =~= bm.to_multiset());
    }
}

/// Inserts one pair into an already sorted vector, keeping it sorted.
fn insert_pair<A>(out: &mut Vec<(String, A)>, x: (String, A))
    requires
        sorted_pairs(old(out)@),
    ensures
        sorted_pairs(final(out)@),
        final(out)@.to_multiset() == old(out)@.to_multiset().insert(x),
{
    let mut pos: usize = 0;
    loop
        invariant
            pos <= out.len(),
            sorted_pairs(out@),
            out == old(out),
            forall|j: int| 0 <= j < pos ==> !lex_le(x.0@, out@[j].0@),
        ensures
            pos <= out.len(),
            out == old(out),
            forall|j: int| 0 <= j < pos ==> !lex_le(x.0@, out@[j].0@),
            pos < out@.len() ==> lex_le(x.0@, out@[pos as int].0@),
        decreases out.len() - pos,
    {
        if pos >= out.len() {
            break;
        }
        if str_le(x.0.as_str(), out[pos].0.as_str()) {
            break;
        }
        pos = pos + 1;
    }
    proof {
        assert forall|j: int| 0 <= j < pos implies lex_le(out@[j].0@, x.0@) by {
            lemma_lex_le_total(x.0@, out@[j].0@);
        }
        assert forall|j: int| pos <= j < out@.len() implies lex_le(x.0@, out@[j].0@) by {
            if j > pos {
                assert(lex_le(out@[pos as int].0@, out@[j].0@));
                lemma_lex_le_trans(x.0@, out@[pos as int].0@, out@[j].0@);
            }
        }
        lemma_insert_multiset(out@, pos as int, x);
    }
    out.insert(pos, x);
}

/// Sorts (name, payload) pairs ascending by name. The result holds the
/// same pairs, as a multiset, as the input.
pub fn sort_pairs_by_name<A>(v: Vec<(String, A)>) -> (r: Vec<(String, A)>)
    ensures
        r@.to_multiset() == v@.to_multiset(),
        sorted_pairs(r@),
{
    broadcast use group_to_multiset_ensures;

    let ghost orig = v@;
    let mut rest = v;
    let mut out: Vec<(String, A)> = Vec::new();
    proof {
        assert(out@.to_multiset().add(rest@.to_multiset()) =~= orig.to_multiset());
    }
    loop
        invariant
            sorted_pairs(out@),
            out@.to_multiset().add(rest@.to_multiset()) == orig.to_multiset(),
        ensures
            sorted_pairs(out@),
            out@.to_multiset().add(rest@.to_multiset()) == orig.to_multiset(),
            rest@.len() == 0,
        decreases rest.len(),
    {
        let ghost prev_rest = rest@;
        let ghost prev_out = out@;
        match rest.pop() {
            None => {
                break;
            },
            Some(x) => {
                proof {
                    broadcast use group_to_multiset_ensures;
                    broadcast use vstd::multiset::group_multiset_axioms;

                    assert(prev_rest =~= rest@.push(x));
                    assert(rest@.push(x).to_multiset() =~= rest@.to_multiset().insert(x));
                }
                insert_pair(&mut out, x);
                proof {
                    broadcast use vstd::multiset::group_multiset_axioms;

                    assert(out@.to_multiset().add(rest@.to_multiset()) =~= prev_out.to_multiset()
                        .add(prev_rest.to_multiset()));
                }
            },
        }
    }
    proof {
        broadcast use vstd::multiset::group_multiset_axioms;

        assert(rest@ =~= Seq::<(String, A)>::empty());
        assert(rest@.to_multiset() =~= Multiset::<(String, A)>::empty());
        assert(out@.to_multiset().add(rest@.to_multiset()) =~= out@.to_multiset());
    }
    out
}

} // verus!

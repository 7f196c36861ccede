use vstd::prelude::*;

verus! {

/// Decimal value of a digit sequence, most significant first.
pub open spec fn dec_val(s: Seq<char>) -> nat
    decreases s.len(),
{
    if s.len() == 0 {
        0
    } else {
        dec_val(s.drop_last()) * 10 + digit_val(s.last())
    }
}

pub open spec fn digit_val(c: char) -> nat {
    ((c as int) - ('0' as int)) as nat
}

pub open spec fn is_digit(c: char) -> bool {
    '0' <= c && c <= '9'
}

pub open spec fn all_digits(s: Seq<char>) -> bool {
    forall|i: int| 0 <= i < s.len() ==> is_digit(#[trigger] s[i])
}

/// A prefix of a string never exceeds the whole string's decimal value.
pub proof fn lemma_dec_val_prefix_le(s: Seq<char>, i: int)
    requires
        0 <= i <= s.len(),
    ensures
        dec_val(s.take(i)) <= dec_val(s),
    decreases s.len() - i,
{
    if i == s.len() {
        assert(s.take(i) =~= s);
    } else {
        lemma_dec_val_prefix_le(s, i + 1);
        assert(s.take(i + 1).drop_last() =~= s.take(i));
        assert(dec_val(s.take(i + 1)) == dec_val(s.take(i)) * 10 + digit_val(s.take(i + 1).last()));
        assert(dec_val(s.take(i)) <= dec_val(s.take(i)) * 10) by (nonlinear_arith);
    }
}

/// Collects the characters of a string into a vector.
pub fn chars_of(s: &str) -> (r: Vec<char>)
    ensures
        r@ == s@,
{
    broadcast use vstd::string::axiom_spec_iter;

    let mut r: Vec<char> = Vec::new();
    for c in it: s.chars()
        invariant
            it.seq() == s@,
            r@ == it.history(),
    {
        r.push(c);
    }
    proof {
        assert(r@ =~= s@);
    }
    r
}

/// Relies on String implementing FromIterator<char>: collecting chars yields
/// the string with exactly those characters in order.
#[verifier::external_body]
pub fn string_of(cs: &Vec<char>) -> (r: String)
    ensures
        r@ == cs@,
{
    cs.iter().copied().collect()
}

/// Parses a nonempty all-digit string as a u32; anything else, or a value
/// over u32::MAX, is rejected.
pub fn parse_u32(s: &String) -> (r: Option<u32>)
    ensures
        r matches Some(v) ==> s@.len() > 0 && all_digits(s@) && dec_val(s@) == v,
        r is None ==> s@.len() == 0 || !all_digits(s@) || dec_val(s@) > u32::MAX,
{
    let cs = chars_of(s.as_str());
    if cs.len() == 0 {
        return None;
    }
    let mut acc: u64 = 0;
    let mut i: usize = 0;
    while i < cs.len()
        invariant
            0 <= i <= cs.len(),
            cs@ == s@,
            cs.len() > 0,
            all_digits(s@.take(i as int)),
            acc == dec_val(s@.take(i as int)),
            acc <= u32::MAX,
        decreases cs.len() - i,
    {
        let c = cs[i];
        if c < '0' || c > '9' {
            assert(!is_digit(s@[i as int]));
            return None;
        }
        let d: u64 = (c as u32 as u64) - ('0' as u32 as u64);
        proof {
            assert(s@.take(i + 1).drop_last() =~= s@.take(i as int));
            assert(s@.take(i + 1).last() == s@[i as int]);
        }
        acc = acc * 10 + d;
        i = i + 1;
        if acc > u32::MAX as u64 {
            proof {
                lemma_dec_val_prefix_le(s@, i as int);
            }
            return None;
        }
    }
    proof {
        assert(s@.take(cs.len() as int) =~= s@);
    }
    Some(acc as u32)
}

/// Lexicographic order on character sequences, by code point.
pub open spec fn lex_le(a: Seq<char>, b: Seq<char>) -> bool
    decreases a.len(),
{
    if a.len() == 0 {
        true
    } else if b.len() == 0 {
        false
    } else if a[0] == b[0] {
        lex_le(a.skip(1), b.skip(1))
    } else {
        (a[0] as u32) < (b[0] as u32)
    }
}

pub proof fn lemma_lex_le_total(a: Seq<char>, b: Seq<char>)
    ensures
        lex_le(a, b) || lex_le(b, a),
    decreases a.len(),
{
    if a.len() != 0 && b.len() != 0 {
        if a[0] == b[0] {
            lemma_lex_le_total(a.skip(1), b.skip(1));
        } else {
            vstd::utf8::char_u32_cast(a[0], a[0] as u32);
            vstd::utf8::char_u32_cast(b[0], b[0] as u32);
        }
    }
}

/// Decides the lexicographic order on two strings by comparing their
/// characters' code points.
pub fn str_le(a: &String, b: &String) -> (r: bool)
    ensures
        r == lex_le(a@, b@),
{
    let ac = chars_of(a.as_str());
    let bc = chars_of(b.as_str());
    let mut i: usize = 0;
    proof {
        assert(a@.skip(0int) =~= a@);
        assert(b@.skip(0int) =~= b@);
    }
    loop
        invariant
            0 <= i <= ac.len(),
            i <= bc.len(),
            ac@ == a@,
            bc@ == b@,
            lex_le(a@, b@) == lex_le(a@.skip(i as int), b@.skip(i as int)),
            forall|j: int| 0 <= j < i ==> a@[j] == b@[j],
        decreases ac.len() - i,
    {
        if i == ac.len() {
            return true;
        }
        if i == bc.len() {
            return false;
        }
        let x = ac[i];
        let y = bc[i];
        if x != y {
            proof {
                assert(a@.skip(i as int)[0] == x);
                assert(b@.skip(i as int)[0] == y);
                assert(a@.skip(i as int).len() != 0);
                assert(b@.skip(i as int).len() != 0);
                assert(lex_le(a@.skip(i as int), b@.skip(i as int)) == ((x as u32) < (
                y as u32)));
            }
            return (x as u32) < (y as u32);
        }
        proof {
            assert(a@.skip(i as int).skip(1) =~= a@.skip(i + 1));
            assert(b@.skip(i as int).skip(1) =~= b@.skip(i + 1));
        }
        i = i + 1;
    }
}

/// Equality of two strings.
pub fn str_eq(a: &String, b: &String) -> (r: bool)
    ensures
        r == (a@ == b@),
{
    <String as PartialEq>::eq(a, b)
}

/// Whether a sequence of strings is sorted ascending.
pub open spec fn sorted_strings(s: Seq<String>) -> bool {
    forall|i: int, j: int| 0 <= i < j < s.len() ==> lex_le(#[trigger] s[i]@, #[trigger] s[j]@)
}

/// The character sequences of a sequence of strings.
pub open spec fn view_of_names(v: Seq<String>) -> Seq<Seq<char>> {
    v.map_values(|x: String| x@)
}

/// Whether a string sequence contains a given character sequence.
pub open spec fn has_name(v: Seq<String>, n: Seq<char>) -> bool {
    exists|i: int| 0 <= i < v.len() && (#[trigger] v[i])@ == n
}

/// Linear search for a string in a vector.
pub fn contains_name(v: &Vec<String>, n: &String) -> (r: bool)
    ensures
        r == has_name(v@, n@),
{
    let mut i: usize = 0;
    while i < v.len()
        invariant
            0 <= i <= v.len(),
            forall|j: int| 0 <= j < i ==> (#[trigger] v@[j])@ != n@,
        decreases v.len() - i,
    {
        if str_eq(&v[i], n) {
            assert(v@[i as int]@ == n@);
            return true;
        }
        i = i + 1;
    }
    false
}

pub proof fn lemma_lex_le_trans(a: Seq<char>, b: Seq<char>, c: Seq<char>)
    requires
        lex_le(a, b),
        lex_le(b, c),
    ensures
        lex_le(a, c),
    decreases a.len(),
{
    if a.len() == 0 {
    } else if b.len() == 0 {
    } else if c.len() == 0 {
    } else {
        if a[0] == b[0] && b[0] == c[0] {
            lemma_lex_le_trans(a.skip(1), b.skip(1), c.skip(1));
        }
    }
}

/// Sorts a vector of strings ascending by insertion, keeping the multiset of
/// elements.
pub fn sort_names(v: Vec<String>) -> (r: Vec<String>)
    ensures
        sorted_strings(r@),
        r@.to_multiset() == v@.to_multiset(),
        view_of_names(r@).to_multiset() == view_of_names(v@).to_multiset(),
        r@.len() == v@.len(),
{
    let mut r: Vec<String> = Vec::new();
    let mut i: usize = 0;
    proof {
        assert(r@ =~= v@.take(0int));
    }
    while i < v.len()
        invariant
            0 <= i <= v.len(),
            sorted_strings(r@),
            r@.to_multiset() == v@.take(i as int).to_multiset(),
            view_of_names(r@).to_multiset() == view_of_names(v@.take(i as int)).to_multiset(),
            r@.len() == i,
        decreases v.len() - i,
    {
        let x = v[i].clone();
        proof {
            vstd::seq_lib::to_multiset_build(v@.take(i as int), v@[i as int]);
            assert(v@.take(i as int).push(v@[i as int]) =~= v@.take(i + 1));
            vstd::seq_lib::to_multiset_build(view_of_names(v@.take(i as int)), v@[i as int]@);
            assert(view_of_names(v@.take(i as int)).push(v@[i as int]@) =~= view_of_names(
                v@.take(i + 1),
            ));
        }
        r = insert_sorted(r, x);
        i = i + 1;
    }
    proof {
        assert(v@.take(v.len() as int) =~= v@);
    }
    r
}

fn insert_sorted(v: Vec<String>, x: String) -> (r: Vec<String>)
    requires
        sorted_strings(v@),
    ensures
        sorted_strings(r@),
        r@.to_multiset() == v@.to_multiset().insert(x),
        view_of_names(r@).to_multiset() == view_of_names(v@).to_multiset().insert(x@),
        r@.len() == v@.len() + 1,
{
    let mut r = v;
    let mut pos: usize = 0;
    loop
        invariant
            0 <= pos <= r.len(),
            sorted_strings(r@),
            forall|j: int| 0 <= j < pos ==> lex_le(#[trigger] r@[j]@, x@),
        ensures
            0 <= pos <= r.len(),
            forall|j: int| 0 <= j < pos ==> lex_le(#[trigger] r@[j]@, x@),
            pos < r.len() ==> lex_le(x@, r@[pos as int]@),
        decreases r.len() - pos,
    {
        if pos == r.len() {
            break;
        }
        if !str_le(&x, &r[pos]) {
            proof {
                lemma_lex_le_total(x@, r@[pos as int]@);
            }
            pos = pos + 1;
        } else {
            break;
        }
    }
    let ghost before = r@;
    let ghost p = pos as int;
    r.insert(pos, x);
    proof {
        vstd::seq_lib::to_multiset_insert(before, p, x);
        assert(r@ == before.insert(p, x));
        vstd::seq_lib::to_multiset_insert(view_of_names(before), p, x@);
        assert(view_of_names(r@) =~= view_of_names(before).insert(p, x@));
        assert forall|i: int, j: int| 0 <= i < j < r@.len() implies lex_le(
            #[trigger] r@[i]@,
            #[trigger] r@[j]@,
        ) by {
            assert(forall|k: int| 0 <= k < p ==> #[trigger] r@[k] == before[k]);
            assert(r@[p] == x);
            assert(forall|k: int| p < k < r@.len() ==> #[trigger] r@[k] == before[k - 1]);
            if j < p {
                assert(lex_le(before[i]@, before[j]@));
            } else if j == p {
                assert(lex_le(before[i]@, x@));
            } else if i == p {
                if j - 1 == p {
                    assert(lex_le(x@, before[p]@));
                } else {
                    assert(lex_le(x@, before[p]@));
                    assert(lex_le(before[p]@, before[j - 1]@));
                    lemma_lex_le_trans(x@, before[p]@, before[j - 1]@);
                }
            } else if i < p {
                assert(lex_le(before[i]@, before[j - 1]@));
            } else {
                assert(lex_le(before[i - 1]@, before[j - 1]@));
            }
        }
    }
    r
}

} // verus!

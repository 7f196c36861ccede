use vstd::prelude::*;

use crate::errors::Error;
use crate::text::{digit_val, is_digit};

verus! {

/// Which way a synchronization moves data.
#[derive(Clone, Copy, PartialEq, Eq, Structural, Debug)]
pub enum SyncDirection {
    Upload,
    Download,
}

/// Whether a synchronization is a dry run or commits.
#[derive(Clone, Copy, PartialEq, Eq, Structural, Debug)]
pub enum Finality {
    Preview,
    Final,
}

impl Finality {
    pub fn preview(&self) -> (r: bool)
        ensures
            r == (*self is Preview),
    {
        matches!(self, Finality::Preview)
    }
}

/// What happened to one remote path.
#[derive(Clone, Copy, PartialEq, Eq, Structural, Debug)]
pub enum CloudChangeKind {
    Added,
    Removed,
    Modified,
}

/// One changed path the synchronizer reported.
#[derive(Clone)]
pub struct CloudChange {
    pub path: String,
    pub kind: CloudChangeKind,
}

/// One line of the synchronizer's event stream.
pub enum CloudEvent {
    Progress { current: u64, max: u64 },
    Change(CloudChange),
}

/// The canonical decimal rendering of a number.
pub open spec fn dec_chars(n: nat) -> Seq<char>
    decreases n,
{
    if n < 10 {
        seq![crate::time::digit_char(n as int)]
    } else {
        dec_chars(n / 10) + seq![crate::time::digit_char((n % 10) as int)]
    }
}

/// A path as it stands inside a JSON string: quotes and backslashes are
/// escaped, any other character stands for itself.
pub open spec fn escape_json(s: Seq<char>) -> Seq<char>
    decreases s.len(),
{
    if s.len() == 0 {
        Seq::empty()
    } else {
        let rest = escape_json(s.drop_last());
        let c = s.last();
        if c == '"' || c == '\\' {
            rest + seq!['\\', c]
        } else {
            rest + seq![c]
        }
    }
}

pub open spec fn kind_chars(k: CloudChangeKind) -> Seq<char> {
    match k {
        CloudChangeKind::Added => seq!['a', 'd', 'd', 'e', 'd'],
        CloudChangeKind::Removed => seq!['r', 'e', 'm', 'o', 'v', 'e', 'd'],
        CloudChangeKind::Modified => seq!['m', 'o', 'd', 'i', 'f', 'i', 'e', 'd'],
    }
}

pub open spec fn progress_prefix() -> Seq<char> {
    seq![
        '{', '"', 'p', 'r', 'o', 'g', 'r', 'e', 's', 's', '"', ':', '{', '"', 'c', 'u', 'r', 'r',
        'e', 'n', 't', '"', ':',
    ]
}

pub open spec fn progress_mid() -> Seq<char> {
    seq![',', '"', 'm', 'a', 'x', '"', ':']
}

pub open spec fn change_prefix() -> Seq<char> {
    seq![
        '{', '"', 'c', 'h', 'a', 'n', 'g', 'e', '"', ':', '{', '"', 'p', 'a', 't', 'h', '"', ':',
        '"',
    ]
}

pub open spec fn change_mid() -> Seq<char> {
    seq!['"', ',', '"', 'k', 'i', 'n', 'd', '"', ':', '"']
}

pub open spec fn close_two() -> Seq<char> {
    seq!['}', '}']
}

pub open spec fn close_change() -> Seq<char> {
    seq!['"', '}', '}']
}

/// The one line the synchronizer emits for a progress report.
pub open spec fn progress_line(current: u64, max: u64) -> Seq<char> {
    progress_prefix() + dec_chars(current as nat) + progress_mid() + dec_chars(max as nat)
        + close_two()
}

/// The one line the synchronizer emits for a changed path.
pub open spec fn change_line(path: Seq<char>, kind: CloudChangeKind) -> Seq<char> {
    change_prefix() + escape_json(path) + change_mid() + kind_chars(kind) + close_change()
}

/// Renders a number in decimal.
pub fn render_u64(n: u64) -> (r: Vec<char>)
    ensures
        r@ == dec_chars(n as nat),
    decreases n,
{
    if n < 10 {
        let c = crate::cloud::digit_char_small(n as u32);
        let mut v: Vec<char> = Vec::new();
        v.push(c);
        proof {
            assert(v@ =~= dec_chars(n as nat));
        }
        v
    } else {
        let mut v = render_u64(n / 10);
        let c = crate::cloud::digit_char_small((n % 10) as u32);
        v.push(c);
        proof {
            assert(v@ =~= dec_chars(n as nat));
        }
        v
    }
}

fn digit_char_small(d: u32) -> (c: char)
    requires
        d < 10,
    ensures
        c == crate::time::digit_char(d as int),
{
    match d {
        0 => '0',
        1 => '1',
        2 => '2',
        3 => '3',
        4 => '4',
        5 => '5',
        6 => '6',
        7 => '7',
        8 => '8',
        _ => '9',
    }
}

/// Renders one event as the line the synchronizer would emit.
pub fn render_event(e: &CloudEvent) -> (r: String)
    ensures
        e matches CloudEvent::Progress { current, max } ==> r@ == progress_line(*current, *max),
        e matches CloudEvent::Change(c) ==> r@ == change_line(c.path@, c.kind),
{
    let mut out: Vec<char> = Vec::new();
    match e {
        CloudEvent::Progress { current, max } => {
            push_all(&mut out, &progress_prefix_exec());
            let mut d = render_u64(*current);
            out.append(&mut d);
            push_all(&mut out, &progress_mid_exec());
            let mut d2 = render_u64(*max);
            out.append(&mut d2);
            out.push('}');
            out.push('}');
            proof {
                assert(out@ =~= progress_line(*current, *max));
            }
        },
        CloudEvent::Change(c) => {
            push_all(&mut out, &change_prefix_exec());
            let pc = crate::text::chars_of(c.path.as_str());
            let ghost pv = c.path@;
            let mut i: usize = 0;
            proof {
                assert(escape_json(pv.take(0int)) =~= Seq::<char>::empty());
                assert(out@ =~= change_prefix() + escape_json(pv.take(0int)));
            }
            while i < pc.len()
                invariant
                    0 <= i <= pc.len(),
                    pc@ == pv,
                    out@ == change_prefix() + escape_json(pv.take(i as int)),
                decreases pc.len() - i,
            {
                let ch = pc[i];
                proof {
                    assert(pv.take(i + 1).drop_last() =~= pv.take(i as int));
                    assert(pv.take(i + 1).last() == pv[i as int]);
                }
                if ch == '"' || ch == '\\' {
                    out.push('\\');
                    out.push(ch);
                } else {
                    out.push(ch);
                }
                proof {
                    assert(out@ =~= change_prefix() + escape_json(pv.take(i + 1)));
                }
                i = i + 1;
            }
            proof {
                assert(pv.take(pc@.len() as int) =~= pv);
            }
            push_all(&mut out, &change_mid_exec());
            match c.kind {
                CloudChangeKind::Added => {
                    out.push('a');
                    out.push('d');
                    out.push('d');
                    out.push('e');
                    out.push('d');
                },
                CloudChangeKind::Removed => {
                    out.push('r');
                    out.push('e');
                    out.push('m');
                    out.push('o');
                    out.push('v');
                    out.push('e');
                    out.push('d');
                },
                CloudChangeKind::Modified => {
                    out.push('m');
                    out.push('o');
                    out.push('d');
                    out.push('i');
                    out.push('f');
                    out.push('i');
                    out.push('e');
                    out.push('d');
                },
            }
            out.push('"');
            out.push('}');
            out.push('}');
            proof {
                assert(out@ =~= change_line(c.path@, c.kind));
            }
        },
    }
    crate::text::string_of(&out)
}

fn progress_prefix_exec() -> (r: Vec<char>)
    ensures
        r@ == progress_prefix(),
{
    let v = crate::text::chars_of("{\"progress\":{\"current\":");
    proof {
        reveal_strlit("{\"progress\":{\"current\":");
        assert(v@ =~= progress_prefix());
    }
    v
}

fn progress_mid_exec() -> (r: Vec<char>)
    ensures
        r@ == progress_mid(),
{
    let v = crate::text::chars_of(",\"max\":");
    proof {
        reveal_strlit(",\"max\":");
        assert(v@ =~= progress_mid());
    }
    v
}

fn change_prefix_exec() -> (r: Vec<char>)
    ensures
        r@ == change_prefix(),
{
    let v = crate::text::chars_of("{\"change\":{\"path\":\"");
    proof {
        reveal_strlit("{\"change\":{\"path\":\"");
        assert(v@ =~= change_prefix());
    }
    v
}

fn change_mid_exec() -> (r: Vec<char>)
    ensures
        r@ == change_mid(),
{
    let v = crate::text::chars_of("\",\"kind\":\"");
    proof {
        reveal_strlit("\",\"kind\":\"");
        assert(v@ =~= change_mid());
    }
    v
}

fn push_all(out: &mut Vec<char>, s: &Vec<char>)
    ensures
        final(out)@ == old(out)@ + s@,
{
    let mut i: usize = 0;
    while i < s.len()
        invariant
            0 <= i <= s@.len(),
            out@ == old(out)@ + s@.take(i as int),
        decreases s@.len() - i,
    {
        out.push(s[i]);
        proof {
            assert(old(out)@ + s@.take(i as int) + seq![s@[i as int]] =~= old(out)@ + s@.take(
                i + 1,
            ));
        }
        i = i + 1;
    }
    proof {
        assert(old(out)@ + s@.take(s@.len() as int) =~= old(out)@ + s@);
    }
}


proof fn lemma_dec_val_singleton(c: char)
    ensures
        crate::text::dec_val(seq![c]) == digit_val(c),
{
    assert(seq![c].len() == 1);
    assert(seq![c].drop_last() =~= Seq::<char>::empty());
    assert(seq![c].last() == c);
    assert(crate::text::dec_val(Seq::<char>::empty()) == 0);
    assert(crate::text::dec_val(seq![c]) == crate::text::dec_val(seq![c].drop_last()) * 10
        + digit_val(seq![c].last()));
}

/// A nonzero digit leads: the value is positive.
proof fn lemma_dec_val_pos(s: Seq<char>)
    requires
        s.len() > 0,
        crate::text::all_digits(s),
        s[0] != '0',
    ensures
        crate::text::dec_val(s) >= 1,
    decreases s.len(),
{
    if s.len() == 1 {
        assert(is_digit(s[0]));
        let u = s[0] as u32;
        vstd::utf8::char_u32_cast(s[0], u);
        vstd::utf8::char_u32_cast('0', '0' as u32);
        assert(s[0] as int != '0' as int);
    } else {
        lemma_dec_val_pos(s.drop_last(), );
        assert(crate::text::dec_val(s) == crate::text::dec_val(s.drop_last()) * 10 + digit_val(
            s.last(),
        ));
        assert(crate::text::dec_val(s.drop_last()) * 10 >= 10) by (nonlinear_arith)
            requires
                crate::text::dec_val(s.drop_last()) >= 1,
        ;
    }
}

/// A digit is recovered from its value.
proof fn lemma_digit_char_val(c: char)
    requires
        is_digit(c),
    ensures
        crate::time::digit_char(digit_val(c) as int) == c,
{
    let u = c as u32;
    vstd::utf8::char_u32_cast(c, u);
    vstd::utf8::char_u32_cast('0', '0' as u32);
    vstd::utf8::char_u32_cast('1', '1' as u32);
    vstd::utf8::char_u32_cast('2', '2' as u32);
    vstd::utf8::char_u32_cast('3', '3' as u32);
    vstd::utf8::char_u32_cast('4', '4' as u32);
    vstd::utf8::char_u32_cast('5', '5' as u32);
    vstd::utf8::char_u32_cast('6', '6' as u32);
    vstd::utf8::char_u32_cast('7', '7' as u32);
    vstd::utf8::char_u32_cast('8', '8' as u32);
    vstd::utf8::char_u32_cast('9', '9' as u32);
}

/// A digit string with no leading zero is the canonical rendering of its
/// value.
proof fn lemma_dec_chars_canonical(s: Seq<char>)
    requires
        s.len() > 0,
        crate::text::all_digits(s),
        s[0] != '0' || s.len() == 1,
    ensures
        dec_chars(crate::text::dec_val(s)) == s,
    decreases s.len(),
{
    if s.len() == 1 {
        lemma_digit_char_val(s[0]);
        assert(s =~= seq![s[0]]);
        lemma_dec_val_singleton(s[0]);
        assert(dec_chars(crate::text::dec_val(s)) =~= s);
    } else {
        let dl = s.drop_last();
        let d = digit_val(s.last());
        lemma_dec_chars_canonical(dl);
        lemma_dec_val_pos(dl);
        let v = crate::text::dec_val(s);
        assert(v == crate::text::dec_val(dl) * 10 + d);
        assert(v / 10 == crate::text::dec_val(dl) && v % 10 == d) by (nonlinear_arith)
            requires
                v == crate::text::dec_val(dl) * 10 + d,
                d < 10,
        ;
        assert(v >= 10) by (nonlinear_arith)
            requires
                v == crate::text::dec_val(dl) * 10 + d,
                crate::text::dec_val(dl) >= 1,
        ;
        lemma_digit_char_val(s.last());
        assert(dec_chars(v) == dec_chars(v / 10) + seq![
            crate::time::digit_char((v % 10) as int),
        ]);
        assert(dec_chars(v) =~= s);
    }
}

/// The canonical decimal rendering is nonempty, all digits, free of leading
/// zeros, and evaluates back to its number.
proof fn lemma_dec_chars_form(n: nat)
    ensures
        dec_chars(n).len() > 0,
        crate::text::all_digits(dec_chars(n)),
        crate::text::dec_val(dec_chars(n)) == n,
        n >= 1 ==> dec_chars(n)[0] != '0',
        n == 0 ==> dec_chars(n) == seq!['0'],
    decreases n,
{
    if n < 10 {
        assert(dec_chars(n) =~= seq![crate::time::digit_char(n as int)]);
        lemma_dec_val_singleton(crate::time::digit_char(n as int));
        assert(is_digit(dec_chars(n)[0]));
    } else {
        lemma_dec_chars_form(n / 10);
        let dl = dec_chars(n / 10);
        let d = crate::time::digit_char((n % 10) as int);
        assert(dec_chars(n) == dl + seq![d]);
        assert((dl + seq![d]).drop_last() =~= dl);
        assert((dl + seq![d]).last() == d);
        assert(crate::text::dec_val(dec_chars(n)) == crate::text::dec_val(dl) * 10 + digit_val(
            d,
        ));
        assert(digit_val(d) == n % 10);
        assert((n / 10) * 10 + n % 10 == n) by (nonlinear_arith);
        assert(crate::text::all_digits(dec_chars(n))) by {
            assert(is_digit(d));
            assert(forall|i: int|
                0 <= i < dl.len() ==> #[trigger] dec_chars(n)[i] == dl[i]);
            assert(dec_chars(n)[dec_chars(n).len() - 1] == d);
        }
        assert(dec_chars(n)[0] == dl[0]);
        assert(n / 10 >= 1);
    }
}

/// Whether a canonical digit run for a value stands at a position, ended by
/// the sequence's end or a non-digit.
pub open spec fn digit_run_at(cs: Seq<char>, start: int, v: u64, e: int) -> bool {
    &&& 0 <= start < e <= cs.len()
    &&& cs.subrange(start, e) == dec_chars(v as nat)
    &&& (e == cs.len() || !is_digit(cs[e]))
}

/// Scans a canonical decimal number: one or more digits, no leading zero,
/// within u64 range. Exactly the canonical runs are recognized: where one
/// stands at the position, it is found, with its value.
#[verifier::rlimit(60)]
fn scan_u64(cs: &Vec<char>, start: usize) -> (r: Option<(u64, usize)>)
    requires
        start <= cs@.len(),
    ensures
        r matches Some(p) ==> digit_run_at(cs@, start as int, p.0, p.1 as int),
        forall|v: u64, e: int|
            #[trigger] digit_run_at(cs@, start as int, v, e) ==> (r matches Some(p) && p.0 == v
                && p.1 as int == e),
{
    let n = cs.len();
    if start >= n {
        proof {
            lemma_no_run_here(cs@, start as int);
        }
        return None;
    }
    let c0 = cs[start];
    if c0 < '0' || c0 > '9' {
        proof {
            lemma_no_run_here(cs@, start as int);
        }
        return None;
    }
    let mut acc: u64 = (c0 as u32 as u64) - ('0' as u32 as u64);
    let mut end: usize = start + 1;
    proof {
        assert(cs@.subrange(start as int, end as int) =~= seq![cs@[start as int]]);
        lemma_dec_val_singleton(cs@[start as int]);
    }
    if c0 == '0' {
        if end < n {
            let c1 = cs[end];
            if '0' <= c1 && c1 <= '9' {
                proof {
                    assert forall|v: u64, e: int|
                        #[trigger] digit_run_at(cs@, start as int, v, e) implies false by {
                        lemma_dec_chars_form(v as nat);
                        assert(cs@.subrange(start as int, e)[0] == cs@[start as int]);
                        assert(dec_chars(v as nat)[0] == '0');
                        assert(v as nat == 0);
                        assert(e - start == 1);
                        assert(is_digit(cs@[e]));
                    }
                }
                return None;
            }
        }
        proof {
            lemma_dec_chars_canonical(cs@.subrange(start as int, end as int));
            lemma_run_unique(cs@, start as int, acc, end as int);
        }
        return Some((acc, end));
    }
    loop
        invariant
            start < end <= cs@.len(),
            n == cs@.len(),
            crate::text::all_digits(cs@.subrange(start as int, end as int)),
            cs@.subrange(start as int, end as int)[0] == cs@[start as int],
            cs@[start as int] != '0',
            acc == crate::text::dec_val(cs@.subrange(start as int, end as int)),
        ensures
            start < end <= cs@.len(),
            crate::text::all_digits(cs@.subrange(start as int, end as int)),
            cs@.subrange(start as int, end as int)[0] == cs@[start as int],
            acc == crate::text::dec_val(cs@.subrange(start as int, end as int)),
            end == cs@.len() || !is_digit(cs@[end as int]),
        decreases cs@.len() - end,
    {
        if end >= cs.len() {
            break ;
        }
        let c = cs[end];
        if c < '0' || c > '9' {
            proof {
                assert(!is_digit(cs@[end as int]));
            }
            break ;
        }
        let d: u64 = (c as u32 as u64) - ('0' as u32 as u64);
        if acc > (u64::MAX - d) / 10 {
            proof {
                assert(acc * 10 + d > u64::MAX) by (nonlinear_arith)
                    requires
                        acc > (u64::MAX - d) / 10,
                        d < 10,
                ;
                assert(cs@.subrange(start as int, end + 1).drop_last() =~= cs@.subrange(
                    start as int,
                    end as int,
                ));
                assert(cs@.subrange(start as int, end + 1).last() == cs@[end as int]);
                assert(crate::text::dec_val(cs@.subrange(start as int, end + 1)) == acc * 10
                    + d);
                assert forall|v: u64, e: int|
                    #[trigger] digit_run_at(cs@, start as int, v, e) implies false by {
                    lemma_dec_chars_form(v as nat);
                    assert(crate::text::dec_val(cs@.subrange(start as int, e)) == v as nat);
                    assert(e > end) by {
                        if e <= end {
                            assert(is_digit(cs@.subrange(start as int, end + 1)[e - start]));
                            assert(is_digit(cs@[e]));
                        }
                    }
                    crate::text::lemma_dec_val_prefix_le(cs@.subrange(start as int, e), end + 1
                        - start);
                    assert(cs@.subrange(start as int, e).take(end + 1 - start) =~= cs@.subrange(
                        start as int,
                        end + 1,
                    ));
                    assert(crate::text::dec_val(cs@.subrange(start as int, end + 1))
                        <= v as nat);
                }
            }
            return None;
        }
        proof {
            assert(cs@.subrange(start as int, end + 1).drop_last() =~= cs@.subrange(
                start as int,
                end as int,
            ));
            assert(cs@.subrange(start as int, end + 1).last() == cs@[end as int]);
            assert(acc * 10 + d <= u64::MAX) by (nonlinear_arith)
                requires
                    acc <= (u64::MAX - d) / 10,
                    d < 10,
            ;
        }
        acc = acc * 10 + d;
        end = end + 1;
    }
    proof {
        lemma_dec_chars_canonical(cs@.subrange(start as int, end as int));
        lemma_run_unique(cs@, start as int, acc, end as int);
    }
    Some((acc, end))
}

/// Where the position holds no digit, no canonical run stands there.
proof fn lemma_no_run_here(cs: Seq<char>, start: int)
    requires
        start >= cs.len() || !is_digit(cs[start]),
    ensures
        forall|v: u64, e: int| !(#[trigger] digit_run_at(cs, start, v, e)),
{
    assert forall|v: u64, e: int| !(#[trigger] digit_run_at(cs, start, v, e)) by {
        if digit_run_at(cs, start, v, e) {
            lemma_dec_chars_form(v as nat);
            assert(is_digit(dec_chars(v as nat)[0]));
            assert(cs.subrange(start, e)[0] == cs[start]);
            assert(is_digit(cs[start]));
        }
    }
}

/// At one position there is at most one canonical run: where one is known,
/// any other coincides with it.
proof fn lemma_run_unique(cs: Seq<char>, start: int, v0: u64, e0: int)
    requires
        digit_run_at(cs, start, v0, e0),
    ensures
        forall|v: u64, e: int|
            #[trigger] digit_run_at(cs, start, v, e) ==> v == v0 && e == e0,
{
    assert forall|v: u64, e: int|
        #[trigger] digit_run_at(cs, start, v, e) implies v == v0 && e == e0 by {
        lemma_dec_chars_form(v as nat);
        lemma_dec_chars_form(v0 as nat);
        assert(e == e0) by {
            if e < e0 {
                assert(is_digit(dec_chars(v0 as nat)[e - start]));
                assert(cs.subrange(start, e0)[e - start] == cs[e]);
                assert(is_digit(cs[e]));
                assert(e < cs.len());
                assert(false);
            } else if e0 < e {
                assert(is_digit(dec_chars(v as nat)[e0 - start]));
                assert(cs.subrange(start, e)[e0 - start] == cs[e0]);
                assert(is_digit(cs[e0]));
                assert(e0 < cs.len());
                assert(false);
            }
        }
        assert(cs.subrange(start, e) == cs.subrange(start, e0));
        assert(crate::text::dec_val(dec_chars(v as nat)) == crate::text::dec_val(
            dec_chars(v0 as nat),
        ));
    }
}

/// Whether a pattern stands at a position.
fn match_at(cs: &Vec<char>, pos: usize, pat: &Vec<char>) -> (r: bool)
    requires
        pos <= cs@.len(),
    ensures
        r == (pos + pat@.len() <= cs@.len() && cs@.subrange(
            pos as int,
            pos + pat@.len(),
        ) == pat@),
{
    let n = cs.len();
    if pat.len() > n - pos {
        return false;
    }
    let mut i: usize = 0;
    while i < pat.len()
        invariant
            0 <= i <= pat@.len(),
            pos + pat@.len() <= cs@.len(),
            cs@.len() == n,
            forall|j: int| 0 <= j < i ==> cs@[pos + j] == pat@[j],
        decreases pat@.len() - i,
    {
        if cs[pos + i] != pat[i] {
            proof {
                assert(cs@.subrange(pos as int, pos + pat@.len())[i as int] != pat@[i as int]);
            }
            return false;
        }
        i = i + 1;
    }
    proof {
        assert(cs@.subrange(pos as int, pos + pat@.len()) =~= pat@);
    }
    true
}

/// Escaping distributes over concatenation: each character escapes on its
/// own.
proof fn lemma_escape_concat(a: Seq<char>, b: Seq<char>)
    ensures
        escape_json(a + b) == escape_json(a) + escape_json(b),
    decreases b.len(),
{
    if b.len() == 0 {
        assert(a + b =~= a);
        assert(escape_json(b) =~= Seq::<char>::empty());
        assert(escape_json(a) + escape_json(b) =~= escape_json(a));
    } else {
        lemma_escape_concat(a, b.drop_last());
        assert((a + b).drop_last() =~= a + b.drop_last());
        assert((a + b).last() == b.last());
        let c = b.last();
        if c == '"' || c == '\\' {
            assert(escape_json(a + b) == escape_json(a) + escape_json(b.drop_last()) + seq![
                '\\',
                c,
            ]);
            assert(escape_json(b) == escape_json(b.drop_last()) + seq!['\\', c]);
            assert(escape_json(a) + escape_json(b) =~= escape_json(a) + escape_json(
                b.drop_last(),
            ) + seq!['\\', c]);
        } else {
            assert(escape_json(a + b) == escape_json(a) + escape_json(b.drop_last()) + seq![c]);
            assert(escape_json(b) == escape_json(b.drop_last()) + seq![c]);
            assert(escape_json(a) + escape_json(b) =~= escape_json(a) + escape_json(
                b.drop_last(),
            ) + seq![c]);
        }
    }
}

/// The escape unit of one character.
pub open spec fn escape_unit(c: char) -> Seq<char> {
    if c == '"' || c == '\\' {
        seq!['\\', c]
    } else {
        seq![c]
    }
}

/// The escaped text splits at any character into prefix, unit and suffix.
proof fn lemma_escape_split(p: Seq<char>, m: int)
    requires
        0 <= m < p.len(),
    ensures
        escape_json(p) == escape_json(p.take(m)) + escape_unit(p[m]) + escape_json(
            p.skip(m + 1),
        ),
        escape_json(p.take(m)).len() + 1 <= escape_json(p).len(),
{
    assert(p.take(m) + p.skip(m) =~= p);
    lemma_escape_concat(p.take(m), p.skip(m));
    assert(p.skip(m) =~= seq![p[m]] + p.skip(m + 1));
    lemma_escape_concat(seq![p[m]], p.skip(m + 1));
    assert(seq![p[m]].len() == 1);
    assert(seq![p[m]].drop_last() =~= Seq::<char>::empty());
    assert(seq![p[m]].last() == p[m]);
    assert(escape_json(Seq::<char>::empty()) == Seq::<char>::empty());
    assert(escape_json(seq![p[m]]) == escape_json(seq![p[m]].drop_last()) + escape_unit(p[m]));
    assert(escape_json(seq![p[m]]) =~= escape_unit(p[m]));
    assert(escape_json(p) =~= escape_json(p.take(m)) + escape_unit(p[m]) + escape_json(
        p.skip(m + 1),
    ));
}

/// How a progress line decomposes around its numbers.
proof fn lemma_progress_decomp(cs: Seq<char>, c: u64, mx: u64)
    requires
        cs == progress_line(c, mx),
    ensures
        cs.len() == 32 + dec_chars(c as nat).len() + dec_chars(mx as nat).len(),
        cs.subrange(0, 23) == progress_prefix(),
        digit_run_at(cs, 23, c, 23 + dec_chars(c as nat).len() as int),
        cs.subrange(
            23 + dec_chars(c as nat).len() as int,
            30 + dec_chars(c as nat).len() as int,
        ) == progress_mid(),
        digit_run_at(cs, 30 + dec_chars(c as nat).len() as int, mx, cs.len() as int - 2),
        cs[cs.len() - 2] == '}',
        cs[cs.len() - 1] == '}',
{
    lemma_dec_chars_form(c as nat);
    lemma_dec_chars_form(mx as nat);
    let d1 = dec_chars(c as nat);
    let d2 = dec_chars(mx as nat);
    assert(cs.subrange(0, 23) =~= progress_prefix());
    assert(cs.subrange(23, 23 + d1.len() as int) =~= d1);
    assert(cs[23 + d1.len() as int] == progress_mid()[0]);
    assert(!is_digit(','));
    assert(cs.subrange(23 + d1.len() as int, 30 + d1.len() as int) =~= progress_mid());
    assert(cs.subrange(30 + d1.len() as int, cs.len() as int - 2) =~= d2);
    assert(cs[cs.len() - 2] == close_two()[0]);
    assert(cs[cs.len() - 1] == close_two()[1]);
}

/// How a change line decomposes around its path and kind.
proof fn lemma_change_decomp(cs: Seq<char>, p: Seq<char>, k: CloudChangeKind)
    requires
        cs == change_line(p, k),
    ensures
        cs.len() == 32 + escape_json(p).len() + kind_chars(k).len(),
        cs.subrange(0, 19) == change_prefix(),
        cs.subrange(19, 19 + escape_json(p).len() as int) == escape_json(p),
        cs.subrange(
            19 + escape_json(p).len() as int,
            29 + escape_json(p).len() as int,
        ) == change_mid(),
        cs.subrange(29 + escape_json(p).len() as int, cs.len() as int - 3) == kind_chars(k),
        cs[cs.len() - 3] == '"',
        cs[cs.len() - 2] == '}',
        cs[cs.len() - 1] == '}',
        cs[2] == 'c',
{
    assert(cs.subrange(0, 19) =~= change_prefix());
    assert(cs.subrange(19, 19 + escape_json(p).len() as int) =~= escape_json(p));
    assert(cs.subrange(19 + escape_json(p).len() as int, 29 + escape_json(p).len() as int)
        =~= change_mid());
    assert(cs.subrange(29 + escape_json(p).len() as int, cs.len() as int - 3) =~= kind_chars(
        k,
    ));
    assert(cs[cs.len() - 3] == close_change()[0]);
    assert(cs[cs.len() - 2] == close_change()[1]);
    assert(cs[cs.len() - 1] == close_change()[2]);
    assert(cs[2] == change_prefix()[2]);
}

/// Parses one line of the synchronizer's stream: exactly the rendered event
/// lines are recognized. A parsed event renders back to this line, and a
/// line that is the rendering of some event always parses.
#[verifier::rlimit(100)]
pub fn parse_cloud_event(line: &String) -> (r: Option<CloudEvent>)
    ensures
        r matches Some(e) ==> match e {
            CloudEvent::Progress { current, max } => line@ == progress_line(current, max),
            CloudEvent::Change(c) => line@ == change_line(c.path@, c.kind),
        },
        (exists|c: u64, mx: u64| line@ == progress_line(c, mx)) ==> r is Some,
        (exists|p: Seq<char>, k: CloudChangeKind| line@ == change_line(p, k)) ==> r is Some,
{
    let cs = crate::text::chars_of(line.as_str());
    let n = cs.len();
    let ghost gpl = exists|c: u64, mx: u64| cs@ == progress_line(c, mx);
    let ghost pw: (u64, u64) = if gpl {
        choose|c: u64, mx: u64| cs@ == progress_line(c, mx)
    } else {
        (0u64, 0u64)
    };
    let ghost gcl = exists|p: Seq<char>, k: CloudChangeKind| cs@ == change_line(p, k);
    proof {
        if gpl {
            lemma_progress_decomp(cs@, pw.0, pw.1);
        }
        if gcl {
            let (p0, k0) = choose|p: Seq<char>, k: CloudChangeKind| cs@ == change_line(p, k);
            lemma_change_decomp(cs@, p0, k0);
        }
    }
    let pp = progress_prefix_exec();
    if match_at(&cs, 0, &pp) {
        proof {
            if gcl {
                assert(cs@.subrange(0, 23)[2] == cs@[2]);
                assert(progress_prefix()[2] == 'p');
                assert(false);
            }
        }
        let p1 = pp.len();
        match scan_u64(&cs, p1) {
            Some((current, e1)) => {
                let pm = progress_mid_exec();
                proof {
                    if gpl {
                        assert(current == pw.0 && e1 as int == 23 + dec_chars(
                            pw.0 as nat,
                        ).len() as int);
                    }
                }
                if match_at(&cs, e1, &pm) {
                    let p2 = e1 + pm.len();
                    match scan_u64(&cs, p2) {
                        Some((max, e2)) => {
                            if n - e2 == 2 && cs[e2] == '}' && cs[e2 + 1] == '}' {
                                proof {
                                    assert(cs@ =~= cs@.subrange(0, p1 as int) + cs@.subrange(
                                        p1 as int,
                                        e1 as int,
                                    ) + cs@.subrange(e1 as int, p2 as int) + cs@.subrange(
                                        p2 as int,
                                        e2 as int,
                                    ) + cs@.subrange(e2 as int, cs@.len() as int));
                                    assert(cs@.subrange(e2 as int, cs@.len() as int)
                                        =~= close_two());
                                    assert(cs@ == progress_line(current, max));
                                }
                                return Some(CloudEvent::Progress { current, max });
                            }
                            proof {
                                if gpl {
                                    assert(max == pw.1 && e2 as int == cs@.len() - 2);
                                    assert(false);
                                }
                            }
                            return None;
                        },
                        None => {
                            proof {
                                if gpl {
                                    assert(false);
                                }
                            }
                            return None;
                        },
                    }
                }
                proof {
                    if gpl {
                        assert(cs@.subrange(e1 as int, e1 + 7) == progress_mid());
                        assert(false);
                    }
                }
                return None;
            },
            None => {
                proof {
                    if gpl {
                        assert(false);
                    }
                }
                return None;
            },
        }
    }
    proof {
        if gpl {
            assert(cs@.subrange(0, 23) == progress_prefix());
            assert(false);
        }
    }
    parse_change_line(&cs)
}

/// Parses a change line: exactly the rendered change lines are recognized.
#[verifier::rlimit(100)]
fn parse_change_line(cs: &Vec<char>) -> (r: Option<CloudEvent>)
    ensures
        r matches Some(e) ==> (e matches CloudEvent::Change(c) && cs@ == change_line(
            c.path@,
            c.kind,
        )),
        (exists|p: Seq<char>, k: CloudChangeKind| cs@ == change_line(p, k)) ==> r is Some,
{
    let n = cs.len();
    let ghost gcl = exists|p: Seq<char>, k: CloudChangeKind| cs@ == change_line(p, k);
    let ghost cw: (Seq<char>, CloudChangeKind) = if gcl {
        choose|p: Seq<char>, k: CloudChangeKind| cs@ == change_line(p, k)
    } else {
        (Seq::empty(), CloudChangeKind::Added)
    };
    proof {
        if gcl {
            lemma_change_decomp(cs@, cw.0, cw.1);
        }
    }
    let cp = change_prefix_exec();
    if !match_at(&cs, 0, &cp) {
        proof {
            if gcl {
                assert(false);
            }
        }
        return None;
    }
    let p1 = cp.len();
    let mut path: Vec<char> = Vec::new();
    let mut pos: usize = p1;
    proof {
        assert(cs@.subrange(p1 as int, pos as int) =~= escape_json(path@));
        if gcl {
            assert(path@ =~= cw.0.take(0int));
        }
    }
    loop
        invariant
            p1 <= pos <= cs@.len(),
            p1 == change_prefix().len(),
            cs@.subrange(0, p1 as int) == change_prefix(),
            cs@.subrange(p1 as int, pos as int) == escape_json(path@),
            gcl == (exists|p: Seq<char>, k: CloudChangeKind| cs@ == change_line(p, k)),
            gcl ==> cs@ == change_line(cw.0, cw.1) && path@ == cw.0.take(path@.len() as int)
                && path@.len() <= cw.0.len(),
        ensures
            p1 <= pos < cs@.len(),
            cs@.subrange(0, p1 as int) == change_prefix(),
            cs@.subrange(p1 as int, pos as int) == escape_json(path@),
            cs@[pos as int] == '"',
            gcl ==> path@ == cw.0,
        decreases cs@.len() - pos,
    {
        let ghost m = path@.len() as int;
        proof {
            if gcl {
                lemma_change_decomp(cs@, cw.0, cw.1);
                if m < cw.0.len() {
                    lemma_escape_split(cw.0, m);
                    assert(escape_json(cw.0.take(m)) == cs@.subrange(p1 as int, pos as int));
                    assert(pos - p1 == escape_json(cw.0.take(m)).len());
                    assert(pos + 1 < cs@.len());
                    assert forall|t: int|
                        0 <= t < escape_unit(cw.0[m]).len() implies cs@[pos + t] == escape_unit(
                        cw.0[m],
                    )[t] by {
                        assert(cs@.subrange(19int, 19 + escape_json(cw.0).len() as int)[pos - 19
                            + t] == cs@[pos + t]);
                        assert(escape_json(cw.0)[pos - 19 + t] == (escape_json(cw.0.take(m))
                            + escape_unit(cw.0[m]) + escape_json(cw.0.skip(m + 1)))[pos - 19
                            + t]);
                    }
                } else {
                    assert(cw.0.take(m) =~= cw.0);
                    assert(pos - p1 == escape_json(cw.0).len());
                    assert(pos < cs@.len());
                    assert(cs@[pos as int] == cs@.subrange(
                        19 + escape_json(cw.0).len() as int,
                        29 + escape_json(cw.0).len() as int,
                    )[0]);
                    assert(cs@[pos as int] == change_mid()[0]);
                }
            }
        }
        if pos >= cs.len() {
            proof {
                if gcl {
                    assert(false);
                }
            }
            return None;
        }
        let c = cs[pos];
        if c == '"' {
            proof {
                if gcl {
                    if m < cw.0.len() {
                        assert(cs@[pos as int] == escape_unit(cw.0[m])[0]);
                        assert(false);
                    }
                    assert(path@ == cw.0.take(m) && cw.0.take(m) =~= cw.0);
                }
            }
            break ;
        }
        let ghost before = path@;
        if c == '\\' {
            if pos + 1 >= cs.len() {
                proof {
                    if gcl {
                        assert(m < cw.0.len());
                        assert(escape_unit(cw.0[m]).len() == 2);
                        assert(pos + 1 < cs@.len());
                        assert(false);
                    }
                }
                return None;
            }
            let c2 = cs[pos + 1];
            if c2 != '"' && c2 != '\\' {
                proof {
                    if gcl {
                        assert(m < cw.0.len());
                        assert(escape_unit(cw.0[m]).len() == 2) by {
                            if !(cw.0[m] == '"' || cw.0[m] == '\\') {
                                assert(cs@[pos as int] == cw.0[m]);
                                assert(false);
                            }
                        }
                        assert(cs@[pos + 1] == cw.0[m]);
                        assert(false);
                    }
                }
                return None;
            }
            path.push(c2);
            proof {
                assert(path@.drop_last() =~= before);
                assert(escape_json(path@) =~= escape_json(before) + seq![
                    '\\',
                    path@.last(),
                ]);
                assert(cs@.subrange(p1 as int, pos + 2) =~= cs@.subrange(p1 as int, pos as int)
                    + seq![cs@[pos as int], cs@[pos + 1]]);
                if gcl {
                    assert(m < cw.0.len());
                    assert(escape_unit(cw.0[m]).len() == 2) by {
                        if !(cw.0[m] == '"' || cw.0[m] == '\\') {
                            assert(cs@[pos as int] == cw.0[m]);
                            assert(false);
                        }
                    }
                    assert(c2 == cw.0[m]);
                    assert(path@ =~= cw.0.take(m + 1));
                }
            }
            pos = pos + 2;
        } else {
            path.push(c);
            proof {
                assert(path@.drop_last() =~= before);
                assert(escape_json(path@) =~= escape_json(before) + seq![path@.last()]);
                assert(cs@.subrange(p1 as int, pos + 1) =~= cs@.subrange(p1 as int, pos as int)
                    + seq![cs@[pos as int]]);
                if gcl {
                    assert(m < cw.0.len());
                    assert(escape_unit(cw.0[m]).len() == 1) by {
                        if cw.0[m] == '"' || cw.0[m] == '\\' {
                            assert(cs@[pos as int] == '\\');
                            assert(false);
                        }
                    }
                    assert(c == cw.0[m]);
                    assert(path@ =~= cw.0.take(m + 1));
                }
            }
            pos = pos + 1;
        }
    }
    proof {
        if gcl {
            lemma_change_decomp(cs@, cw.0, cw.1);
            assert(pos - p1 == escape_json(cw.0).len());
        }
    }
    let cm = change_mid_exec();
    if !match_at(&cs, pos, &cm) {
        proof {
            if gcl {
                assert(cs@.subrange(pos as int, pos + 10) == change_mid());
                assert(false);
            }
        }
        return None;
    }
    let p2 = pos + cm.len();
    let added = crate::text::chars_of("added");
    let removed = crate::text::chars_of("removed");
    let modified = crate::text::chars_of("modified");
    proof {
        reveal_strlit("added");
        reveal_strlit("removed");
        reveal_strlit("modified");
        assert(added@ =~= kind_chars(CloudChangeKind::Added));
        assert(removed@ =~= kind_chars(CloudChangeKind::Removed));
        assert(modified@ =~= kind_chars(CloudChangeKind::Modified));
        if gcl {
            assert(cs@.subrange(p2 as int, cs@.len() - 3) == kind_chars(cw.1));
        }
    }
    let kind: CloudChangeKind;
    let klen: usize;
    if match_at(&cs, p2, &added) {
        kind = CloudChangeKind::Added;
        klen = added.len();
        proof {
            if gcl && !(cw.1 is Added) {
                assert(cs@.subrange(p2 as int, p2 + 5)[0] == kind_chars(cw.1)[0]);
                assert(false);
            }
        }
    } else if match_at(&cs, p2, &removed) {
        kind = CloudChangeKind::Removed;
        klen = removed.len();
        proof {
            if gcl && !(cw.1 is Removed) {
                assert(cs@.subrange(p2 as int, p2 + 7)[0] == kind_chars(cw.1)[0]);
                assert(false);
            }
        }
    } else if match_at(&cs, p2, &modified) {
        kind = CloudChangeKind::Modified;
        klen = modified.len();
        proof {
            if gcl && !(cw.1 is Modified) {
                assert(cs@.subrange(p2 as int, p2 + 8)[0] == kind_chars(cw.1)[0]);
                assert(false);
            }
        }
    } else {
        proof {
            if gcl {
                match cw.1 {
                    CloudChangeKind::Added => {
                        assert(cs@.subrange(p2 as int, p2 + 5) =~= kind_chars(cw.1));
                    },
                    CloudChangeKind::Removed => {
                        assert(cs@.subrange(p2 as int, p2 + 7) =~= kind_chars(cw.1));
                    },
                    CloudChangeKind::Modified => {
                        assert(cs@.subrange(p2 as int, p2 + 8) =~= kind_chars(cw.1));
                    },
                }
                assert(false);
            }
        }
        return None;
    }
    let p3 = p2 + klen;
    if p3 <= n && n - p3 == 3 && cs[p3] == '"' && cs[p3 + 1] == '}' && cs[p3 + 2] == '}' {
        proof {
            assert(cs@ =~= cs@.subrange(0, p1 as int) + cs@.subrange(p1 as int, pos as int)
                + cs@.subrange(pos as int, p2 as int) + cs@.subrange(p2 as int, p3 as int)
                + cs@.subrange(p3 as int, cs@.len() as int));
            assert(cs@.subrange(pos as int, p2 as int) == change_mid());
            assert(cs@.subrange(p3 as int, cs@.len() as int) =~= close_change());
        }
        let pstr = crate::text::string_of(&path);
        proof {
            assert(cs@ == change_line(pstr@, kind));
        }
        return Some(CloudEvent::Change(CloudChange { path: pstr, kind }));
    }
    proof {
        if gcl {
            assert(kind == cw.1);
            assert(klen as int == kind_chars(cw.1).len());
            assert(p3 as int == cs@.len() - 3);
            assert(cs@[p3 as int] == '"' && cs@[p3 + 1] == '}' && cs@[p3 + 2] == '}');
            assert(false);
        }
    }
    None
}

/// The change list a stream of events carries, in order, as plain values.
pub open spec fn changes_view(events: Seq<CloudEvent>) -> Seq<(Seq<char>, CloudChangeKind)>
    decreases events.len(),
{
    if events.len() == 0 {
        Seq::empty()
    } else {
        let prev = changes_view(events.drop_last());
        match events.last() {
            CloudEvent::Change(c) => prev.push((c.path@, c.kind)),
            CloudEvent::Progress { .. } => prev,
        }
    }
}

/// The progress the stream last reported.
pub open spec fn last_progress(events: Seq<CloudEvent>) -> Option<(u64, u64)>
    decreases events.len(),
{
    if events.len() == 0 {
        None
    } else {
        match events.last() {
            CloudEvent::Progress { current, max } => Some((current, max)),
            CloudEvent::Change(_) => last_progress(events.drop_last()),
        }
    }
}

/// Splits a drained event stream into its change list and the last progress
/// report.
pub fn drain_events(events: Vec<CloudEvent>) -> (r: (Vec<CloudChange>, Option<(u64, u64)>))
    ensures
        r.0@.map_values(|c: CloudChange| (c.path@, c.kind)) == changes_view(events@),
        r.1 == last_progress(events@),
{
    let mut changes: Vec<CloudChange> = Vec::new();
    let mut progress: Option<(u64, u64)> = None;
    let mut i: usize = 0;
    proof {
        assert(changes@.map_values(|c: CloudChange| (c.path@, c.kind)) =~= changes_view(
            events@.take(0int),
        ));
    }
    while i < events.len()
        invariant
            0 <= i <= events@.len(),
            changes@.map_values(|c: CloudChange| (c.path@, c.kind)) == changes_view(
                events@.take(i as int),
            ),
            progress == last_progress(events@.take(i as int)),
        decreases events@.len() - i,
    {
        proof {
            assert(events@.take(i + 1).drop_last() =~= events@.take(i as int));
            assert(events@.take(i + 1).last() == events@[i as int]);
        }
        let ghost before = changes@;
        match &events[i] {
            CloudEvent::Progress { current, max } => {
                progress = Some((*current, *max));
            },
            CloudEvent::Change(c) => {
                changes.push(CloudChange { path: c.path.clone(), kind: c.kind });
                proof {
                    assert(changes@.map_values(|c: CloudChange| (c.path@, c.kind))
                        =~= before.map_values(|c: CloudChange| (c.path@, c.kind)).push(
                        (events@[i as int]->Change_0.path@, events@[i as int]->Change_0.kind),
                    ));
                }
            },
        }
        i = i + 1;
    }
    proof {
        assert(events@.take(events@.len() as int) =~= events@);
    }
    (changes, progress)
}

/// Turns the synchronizer's exit into the operation's outcome: its changes on
/// success, the captured diagnostics as a cloud failure otherwise.
pub fn cloud_sync_outcome(exit_ok: bool, stderr: String, changes: Vec<CloudChange>) -> (r:
    Result<Vec<CloudChange>, Error>)
    ensures
        exit_ok ==> (r matches Ok(v) && v == changes),
        !exit_ok ==> (r matches Err(e) && (e matches Error::UnableToSynchronizeCloud { detail }
            && detail == stderr)),
{
    if exit_ok {
        Ok(changes)
    } else {
        Err(Error::UnableToSynchronizeCloud { detail: stderr })
    }
}

/// What a backup does about cloud sync after its preview pass.
#[derive(Clone, Copy, PartialEq, Eq, Structural, Debug)]
pub struct CloudGate {
    pub sync_after: bool,
    pub conflict: bool,
    pub sync_failed: bool,
}

/// Gates the final upload on the preview: remote changes suppress it and flag
/// a conflict, a failed preview suppresses it and flags the failure, and only
/// a clean empty preview lets it proceed.
pub fn gate_cloud_backup(preview: &Result<Vec<CloudChange>, Error>) -> (d: CloudGate)
    ensures
        preview matches Ok(ch) && ch@.len() == 0 ==> d == (CloudGate {
            sync_after: true,
            conflict: false,
            sync_failed: false,
        }),
        preview matches Ok(ch) && ch@.len() > 0 ==> d == (CloudGate {
            sync_after: false,
            conflict: true,
            sync_failed: false,
        }),
        preview is Err ==> d == (CloudGate {
            sync_after: false,
            conflict: false,
            sync_failed: true,
        }),
{
    match preview {
        Ok(changes) => {
            if changes.len() == 0 {
                CloudGate { sync_after: true, conflict: false, sync_failed: false }
            } else {
                CloudGate { sync_after: false, conflict: true, sync_failed: false }
            }
        },
        Err(_) => CloudGate { sync_after: false, conflict: false, sync_failed: true },
    }
}


/// A cloud remote the synchronizer can be pointed at.
#[derive(Clone)]
pub enum Remote {
    Custom { name: String },
    Box,
    Dropbox,
    Ftp { host: String, port: u32, username: String, password: String },
    GoogleDrive,
    OneDrive,
    Smb { host: String, port: u32, username: String, password: String },
    WebDav { url: String, username: String, password: String, provider: String },
}

impl Remote {
    /// Whether choosing this remote requires configuring the synchronizer
    /// first: a custom remote is taken as already configured by hand, every
    /// other kind must be set up before use.
    pub fn needs_configuration(&self) -> (r: bool)
        ensures
            r == !(*self is Custom),
    {
        !matches!(self, Remote::Custom { .. })
    }
}

} // verus!

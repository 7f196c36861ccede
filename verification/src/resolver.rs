use vstd::prelude::*;

use crate::scan::has_prefix;

verus! {

/// One template token and the concrete path it stands for.
#[derive(Clone)]
pub struct TokenBinding {
    pub token: String,
    pub value: String,
}

pub open spec fn nonempty_tokens(pairs: Seq<TokenBinding>) -> bool {
    forall|i: int| 0 <= i < pairs.len() ==> (#[trigger] pairs[i]).token@.len() > 0
}

/// The first binding whose token starts here, if any.
pub open spec fn token_match_at(pairs: Seq<TokenBinding>, s: Seq<char>) -> Option<TokenBinding>
    decreases pairs.len(),
{
    if pairs.len() == 0 {
        None
    } else if has_prefix(s, pairs.first().token@) {
        Some(pairs.first())
    } else {
        token_match_at(pairs.drop_first(), s)
    }
}

/// How far a matched token advances the scan; a degenerate empty token
/// still advances one character so the walk ends.
pub open spec fn advance_of(b: TokenBinding) -> int {
    if b.token@.len() > 0 {
        b.token@.len() as int
    } else {
        1
    }
}

/// A template with its tokens substituted: at each position the first
/// matching token is replaced by its value, and other characters stand for
/// themselves. Substitution happens before any wildcard handling.
pub open spec fn spec_expand(template: Seq<char>, pairs: Seq<TokenBinding>) -> Seq<char>
    decreases template.len(),
{
    if template.len() == 0 {
        Seq::empty()
    } else {
        match token_match_at(pairs, template) {
            Some(b) => b.value@ + spec_expand(
                template.skip(vstd::math::min(advance_of(b), template.len() as int)),
                pairs,
            ),
            None => seq![template.first()] + spec_expand(template.skip(1), pairs),
        }
    }
}

/// Finds the first binding whose token stands at the given position.
fn find_token_at(cs: &Vec<char>, pos: usize, pairs: &Vec<TokenBinding>) -> (r: Option<usize>)
    requires
        pos <= cs@.len(),
    ensures
        r matches Some(i) ==> 0 <= i < pairs@.len() && token_match_at(
            pairs@,
            cs@.skip(pos as int),
        ) == Some(pairs@[i as int]) && has_prefix(
            cs@.skip(pos as int),
            pairs@[i as int].token@,
        ),
        r is None ==> token_match_at(pairs@, cs@.skip(pos as int)) is None,
{
    let n = cs.len();
    let mut i: usize = 0;
    proof {
        assert(pairs@.skip(0int) =~= pairs@);
    }
    while i < pairs.len()
        invariant
            0 <= i <= pairs@.len(),
            pos <= cs@.len(),
            cs@.len() == n,
            token_match_at(pairs@, cs@.skip(pos as int)) == token_match_at(
                pairs@.skip(i as int),
                cs@.skip(pos as int),
            ),
        decreases pairs@.len() - i,
    {
        proof {
            assert(pairs@.skip(i as int).first() == pairs@[i as int]);
            assert(pairs@.skip(i as int).drop_first() =~= pairs@.skip(i + 1));
        }
        let tc = crate::text::chars_of(pairs[i].token.as_str());
        if tc.len() <= n - pos {
            let mut m: usize = 0;
            let mut matched = true;
            while m < tc.len()
                invariant
                    0 <= m <= tc@.len(),
                    pos + tc@.len() <= cs@.len(),
                    cs@.len() == n,
                    matched ==> forall|k: int| 0 <= k < m ==> cs@[pos + k] == tc@[k],
                    !matched ==> !has_prefix(cs@.skip(pos as int), tc@),
                ensures
                    matched ==> forall|k: int| 0 <= k < tc@.len() ==> cs@[pos + k] == tc@[k],
                    !matched ==> !has_prefix(cs@.skip(pos as int), tc@),
                    pos + tc@.len() <= cs@.len(),
                    cs@.len() == n,
                decreases tc@.len() - m,
            {
                if cs[pos + m] != tc[m] {
                    proof {
                        assert(cs@.skip(pos as int).take(tc@.len() as int)[m as int] == cs@[pos
                            + m]);
                    }
                    matched = false;
                    break ;
                }
                m = m + 1;
            }
            if matched {
                proof {
                    assert(cs@.skip(pos as int).take(tc@.len() as int) =~= tc@);
                    assert(has_prefix(cs@.skip(pos as int), pairs@[i as int].token@));
                }
                return Some(i);
            }
        } else {
            proof {
                assert(!has_prefix(cs@.skip(pos as int), pairs@[i as int].token@));
            }
        }
        i = i + 1;
    }
    proof {
        assert(pairs@.skip(pairs@.len() as int) =~= Seq::<TokenBinding>::empty());
    }
    None
}

/// Expands a path template: each token is replaced by its bound value, first
/// binding first, before any wildcard handling.
pub fn expand_template(template: &String, pairs: &Vec<TokenBinding>) -> (r: String)
    requires
        nonempty_tokens(pairs@),
    ensures
        r@ == spec_expand(template@, pairs@),
{
    let cs = crate::text::chars_of(template.as_str());
    let n = cs.len();
    let mut out: Vec<char> = Vec::new();
    let mut pos: usize = 0;
    proof {
        assert(template@.skip(0int) =~= template@);
        assert(out@ + spec_expand(template@, pairs@) =~= spec_expand(template@, pairs@));
    }
    while pos < n
        invariant
            0 <= pos <= n,
            cs@ == template@,
            cs@.len() == n,
            nonempty_tokens(pairs@),
            out@ + spec_expand(template@.skip(pos as int), pairs@) == spec_expand(
                template@,
                pairs@,
            ),
        decreases n - pos,
    {
        match find_token_at(&cs, pos, pairs) {
            Some(i) => {
                let tc = crate::text::chars_of(pairs[i].token.as_str());
                let vc = crate::text::chars_of(pairs[i].value.as_str());
                let ghost rest = template@.skip(pos as int);
                proof {
                    assert(has_prefix(rest, pairs@[i as int].token@));
                    assert(pairs@[i as int].token@.len() > 0);
                    assert(rest.len() > 0);
                    assert(advance_of(pairs@[i as int]) == pairs@[i as int].token@.len());
                    assert(vstd::math::min(advance_of(pairs@[i as int]), rest.len() as int)
                        == pairs@[i as int].token@.len());
                    assert(spec_expand(rest, pairs@) == pairs@[i as int].value@ + spec_expand(
                        rest.skip(pairs@[i as int].token@.len() as int),
                        pairs@,
                    ));
                    assert(rest.skip(pairs@[i as int].token@.len() as int) =~= template@.skip(
                        pos + pairs@[i as int].token@.len(),
                    ));
                }
                let mut k: usize = 0;
                let ghost outg = out@;
                while k < vc.len()
                    invariant
                        0 <= k <= vc@.len(),
                        out@ == outg + vc@.take(k as int),
                    decreases vc@.len() - k,
                {
                    out.push(vc[k]);
                    proof {
                        assert(out@ =~= outg + vc@.take(k + 1));
                    }
                    k = k + 1;
                }
                proof {
                    assert(vc@.take(vc@.len() as int) =~= vc@);
                    assert(pairs@[i as int].token@.len() <= template@.skip(
                        pos as int,
                    ).len());
                }
                pos = pos + tc.len();
                proof {
                    assert(out@ + spec_expand(template@.skip(pos as int), pairs@)
                        =~= spec_expand(template@, pairs@));
                }
            },
            None => {
                let ghost rest = template@.skip(pos as int);
                proof {
                    assert(rest.len() > 0);
                    assert(spec_expand(rest, pairs@) == seq![rest.first()] + spec_expand(
                        rest.skip(1),
                        pairs@,
                    ));
                    assert(rest.first() == template@[pos as int]);
                    assert(rest.skip(1) =~= template@.skip(pos + 1));
                }
                out.push(cs[pos]);
                pos = pos + 1;
                proof {
                    assert(out@ + spec_expand(template@.skip(pos as int), pairs@)
                        =~= spec_expand(template@, pairs@));
                }
            },
        }
    }
    proof {
        assert(template@.skip(n as int) =~= Seq::<char>::empty());
        assert(out@ =~= spec_expand(template@, pairs@));
    }
    crate::text::string_of(&out)
}

/// The wine drive remap: a path under the letter drive moves into the
/// prefix's emulated drive, with backslashes turned into slashes.
pub open spec fn slashes_of(s: Seq<char>) -> Seq<char> {
    s.map_values(
        |c: char|
            if c == '\\' {
                '/'
            } else {
                c
            },
    )
}

pub open spec fn drive_prefix() -> Seq<char> {
    seq!['C', ':', '\\']
}

pub open spec fn drive_c_dir() -> Seq<char> {
    seq!['/', 'd', 'r', 'i', 'v', 'e', '_', 'c', '/']
}

/// What a wine prefix makes of a windows path: unchanged when it is not
/// under the letter drive, else relocated under drive_c with forward
/// slashes.
pub open spec fn spec_wine_remap(path: Seq<char>, prefix: Seq<char>) -> Seq<char> {
    if has_prefix(path, drive_prefix()) {
        prefix + drive_c_dir() + slashes_of(path.skip(3))
    } else {
        path
    }
}

/// Remaps a windows path into a wine prefix.
pub fn wine_remap(path: &String, prefix: &String) -> (r: String)
    ensures
        r@ == spec_wine_remap(path@, prefix@),
{
    let pc = crate::text::chars_of(path.as_str());
    if pc.len() >= 3 {
        let matches_drive = pc[0] == 'C' && pc[1] == ':' && pc[2] == '\\';
        if matches_drive {
            proof {
                assert(pc@.take(3int) =~= drive_prefix());
            }
            let mut out = crate::text::chars_of(prefix.as_str());
            out.push('/');
            out.push('d');
            out.push('r');
            out.push('i');
            out.push('v');
            out.push('e');
            out.push('_');
            out.push('c');
            out.push('/');
            proof {
                assert(out@ =~= prefix@ + drive_c_dir());
            }
            let ghost base = out@;
            let mut k: usize = 3;
            proof {
                assert(slashes_of(path@.skip(3)).take(0int) =~= Seq::<char>::empty());
            }
            while k < pc.len()
                invariant
                    3 <= k <= pc@.len(),
                    pc@ == path@,
                    out@ == base + slashes_of(path@.skip(3)).take(k - 3),
                decreases pc@.len() - k,
            {
                let c = pc[k];
                if c == '\\' {
                    out.push('/');
                } else {
                    out.push(c);
                }
                proof {
                    assert(slashes_of(path@.skip(3))[k - 3] == (if path@[k as int] == '\\' {
                        '/'
                    } else {
                        path@[k as int]
                    }));
                    assert(out@ =~= base + slashes_of(path@.skip(3)).take(k - 3 + 1));
                }
                k = k + 1;
            }
            proof {
                assert(slashes_of(path@.skip(3)).take(pc@.len() - 3) =~= slashes_of(
                    path@.skip(3),
                ));
            }
            return crate::text::string_of(&out);
        }
        proof {
            if has_prefix(path@, drive_prefix()) {
                assert(path@.take(3int)[0] == 'C' && path@.take(3int)[1] == ':' && path@.take(
                    3int,
                )[2] == '\\');
            }
        }
    }
    path.clone()
}


/// ASCII letters lowered, all else untouched: the case-insensitive form of a
/// path component.
pub open spec fn lower_ascii(s: Seq<char>) -> Seq<char> {
    s.map_values(
        |c: char|
            if 'A' <= c && c <= 'Z' {
                (((c as u32) + 32) as char)
            } else {
                c
            },
    )
}

/// Lowers the ASCII letters of a component.
fn lower_ascii_exec(s: &String) -> (r: Vec<char>)
    ensures
        r@ == lower_ascii(s@),
{
    let cs = crate::text::chars_of(s.as_str());
    let mut out: Vec<char> = Vec::new();
    let mut i: usize = 0;
    while i < cs.len()
        invariant
            0 <= i <= cs@.len(),
            cs@ == s@,
            out@.len() == i,
            forall|j: int| 0 <= j < i ==> #[trigger] out@[j] == lower_ascii(s@)[j],
        decreases cs@.len() - i,
    {
        let c = cs[i];
        if 'A' <= c && c <= 'Z' {
            let lowered = ((c as u8) + 32) as char;
            proof {
                vstd::utf8::char_u32_cast(lowered, lowered as u32);
            }
            out.push(lowered);
        } else {
            out.push(c);
        }
        i = i + 1;
    }
    proof {
        assert(out@ =~= lower_ascii(s@));
    }
    out
}

fn chars_equal(a: &Vec<char>, b: &Vec<char>) -> (r: bool)
    ensures
        r == (a@ == b@),
{
    if a.len() != b.len() {
        return false;
    }
    let mut i: usize = 0;
    while i < a.len()
        invariant
            0 <= i <= a@.len(),
            a@.len() == b@.len(),
            forall|j: int| 0 <= j < i ==> a@[j] == b@[j],
        decreases a@.len() - i,
    {
        if a[i] != b[i] {
            return false;
        }
        i = i + 1;
    }
    proof {
        assert(a@ =~= b@);
    }
    true
}

/// Whether one pattern component matches one path component: a lone `*`
/// matches any single component, anything else matches itself, case folded
/// when asked.
pub open spec fn comp_matches(pat: Seq<char>, comp: Seq<char>, fold_case: bool) -> bool {
    pat == seq!['*'] || (if fold_case {
        lower_ascii(pat) == lower_ascii(comp)
    } else {
        pat == comp
    })
}

fn comp_matches_exec(pat: &String, comp: &String, fold_case: bool) -> (r: bool)
    ensures
        r == comp_matches(pat@, comp@, fold_case),
{
    let pc = crate::text::chars_of(pat.as_str());
    if pc.len() == 1 && pc[0] == '*' {
        proof {
            assert(pat@ =~= seq!['*']);
        }
        return true;
    }
    proof {
        if pat@ == seq!['*'] {
            assert(pat@.len() == 1 && pat@[0] == '*');
        }
    }
    if fold_case {
        let la = lower_ascii_exec(pat);
        let lb = lower_ascii_exec(comp);
        chars_equal(&la, &lb)
    } else {
        crate::text::str_eq(pat, comp)
    }
}

/// The `**` pattern component.
pub open spec fn double_star() -> Seq<char> {
    seq!['*', '*']
}

/// Glob matching over path components: `*` matches one component, `**` any
/// run of components, and a literal matches itself.
pub open spec fn glob_match(pat: Seq<Seq<char>>, path: Seq<Seq<char>>, fold_case: bool) -> bool
    decreases pat.len(), path.len(),
{
    if pat.len() == 0 {
        path.len() == 0
    } else if pat.first() == double_star() {
        glob_match(pat.drop_first(), path, fold_case) || (path.len() > 0 && glob_match(
            pat,
            path.drop_first(),
            fold_case,
        ))
    } else {
        path.len() > 0 && comp_matches(pat.first(), path.first(), fold_case) && glob_match(
            pat.drop_first(),
            path.drop_first(),
            fold_case,
        )
    }
}

fn glob_from(
    pat: &Vec<String>,
    pi: usize,
    path: &Vec<String>,
    qi: usize,
    fold_case: bool,
) -> (r: bool)
    requires
        pi <= pat@.len(),
        qi <= path@.len(),
    ensures
        r == glob_match(
            crate::text::view_of_names(pat@).skip(pi as int),
            crate::text::view_of_names(path@).skip(qi as int),
            fold_case,
        ),
    decreases pat@.len() - pi, path@.len() - qi,
{
    let ghost pv = crate::text::view_of_names(pat@).skip(pi as int);
    let ghost qv = crate::text::view_of_names(path@).skip(qi as int);
    if pi == pat.len() {
        return qi == path.len();
    }
    proof {
        assert(pv.first() == pat@[pi as int]@);
        assert(pv.drop_first() =~= crate::text::view_of_names(pat@).skip(pi + 1));
        if qi < path@.len() {
            assert(qv.first() == path@[qi as int]@);
            assert(qv.drop_first() =~= crate::text::view_of_names(path@).skip(qi + 1));
        }
    }
    let pc = crate::text::chars_of(pat[pi].as_str());
    let is_dstar = pc.len() == 2 && pc[0] == '*' && pc[1] == '*';
    proof {
        if is_dstar {
            assert(pat@[pi as int]@ =~= double_star());
        } else if pat@[pi as int]@ == double_star() {
            assert(pc@.len() == 2 && pc@[0] == '*' && pc@[1] == '*');
        }
    }
    if is_dstar {
        if glob_from(pat, pi + 1, path, qi, fold_case) {
            return true;
        }
        if qi < path.len() {
            return glob_from(pat, pi, path, qi + 1, fold_case);
        }
        return false;
    }
    if qi == path.len() {
        return false;
    }
    if !comp_matches_exec(&pat[pi], &path[qi], fold_case) {
        return false;
    }
    glob_from(pat, pi + 1, path, qi + 1, fold_case)
}

/// Matches a component pattern against a path, per the wildcard rules.
pub fn glob_match_components(
    pat: &Vec<String>,
    path: &Vec<String>,
    fold_case: bool,
) -> (r: bool)
    ensures
        r == glob_match(
            crate::text::view_of_names(pat@),
            crate::text::view_of_names(path@),
            fold_case,
        ),
{
    let r = glob_from(pat, 0, path, 0, fold_case);
    proof {
        assert(crate::text::view_of_names(pat@).skip(0int) =~= crate::text::view_of_names(
            pat@,
        ));
        assert(crate::text::view_of_names(path@).skip(0int) =~= crate::text::view_of_names(
            path@,
        ));
    }
    r
}

/// Components joined by the path separator.
pub open spec fn join_slash(cs: Seq<Seq<char>>) -> Seq<char>
    decreases cs.len(),
{
    if cs.len() == 0 {
        Seq::empty()
    } else if cs.len() == 1 {
        cs[0]
    } else {
        join_slash(cs.drop_last()) + seq!['/'] + cs.last()
    }
}

/// Splits a path into its slash-separated components: joining them back
/// yields the path, and no component holds a separator.
pub fn split_components(s: &String) -> (r: Vec<String>)
    ensures
        r@.len() >= 1,
        join_slash(crate::text::view_of_names(r@)) == s@,
        forall|i: int, j: int|
            0 <= i < r@.len() && 0 <= j < r@[i]@.len() ==> #[trigger] r@[i]@[j] != '/',
{
    let cs = crate::text::chars_of(s.as_str());
    let mut comps: Vec<String> = Vec::new();
    let mut cur: Vec<char> = Vec::new();
    let mut i: usize = 0;
    proof {
        assert(join_slash(crate::text::view_of_names(comps@).push(cur@)) =~= s@.take(0int));
    }
    while i < cs.len()
        invariant
            0 <= i <= cs@.len(),
            cs@ == s@,
            join_slash(crate::text::view_of_names(comps@).push(cur@)) == s@.take(i as int),
            forall|a: int, b: int|
                0 <= a < comps@.len() && 0 <= b < comps@[a]@.len() ==> #[trigger] comps@[a]@[b]
                    != '/',
            forall|b: int| 0 <= b < cur@.len() ==> cur@[b] != '/',
        decreases cs@.len() - i,
    {
        let c = cs[i];
        let ghost pre = crate::text::view_of_names(comps@).push(cur@);
        if c == '/' {
            let done = crate::text::string_of(&cur);
            comps.push(done);
            cur = Vec::new();
            proof {
                let now = crate::text::view_of_names(comps@).push(cur@);
                assert(now.drop_last() =~= pre);
                assert(now.last() =~= Seq::<char>::empty());
                assert(join_slash(now) == join_slash(pre) + seq!['/'] + cur@);
                assert(join_slash(now) =~= s@.take(i + 1));
            }
        } else {
            cur.push(c);
            proof {
                let now = crate::text::view_of_names(comps@).push(cur@);
                assert(now.drop_last() =~= pre.drop_last());
                assert(now.last() == cur@);
                if comps@.len() == 0 {
                    assert(join_slash(now) == cur@);
                    assert(join_slash(pre) == pre.last());
                } else {
                    assert(join_slash(now) == join_slash(now.drop_last()) + seq!['/'] + cur@);
                    assert(join_slash(pre) == join_slash(pre.drop_last()) + seq!['/']
                        + pre.last());
                }
                assert(join_slash(now) =~= s@.take(i + 1));
            }
        }
        i = i + 1;
    }
    let ghost endview = crate::text::view_of_names(comps@).push(cur@);
    let last = crate::text::string_of(&cur);
    comps.push(last);
    proof {
        assert(crate::text::view_of_names(comps@) =~= endview);
        assert(s@.take(cs@.len() as int) =~= s@);
    }
    comps
}

} // verus!

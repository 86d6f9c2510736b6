use vstd::prelude::*;

use crate::error::FastarError;

verus! {

/// Path separators of every platform.
pub open spec fn is_separator(c: char) -> bool {
    c == '/' || c == '\\'
}

/// The component that stands for a leading separator (a path from the root).
pub open spec fn root_component() -> Seq<char> {
    seq!['/']
}

pub open spec fn parent_component() -> Seq<char> {
    seq!['.', '.']
}

/// A piece between separators is a component unless it is empty or `.`.
pub open spec fn piece(p: Seq<char>) -> Seq<Seq<char>> {
    if p.len() == 0 || p == seq!['.'] {
        Seq::empty()
    } else {
        seq![p]
    }
}

/// The components of `s` from the piece that starts at `start`, scanning
/// from `i`.
pub open spec fn pieces_from(s: Seq<char>, start: int, i: int) -> Seq<Seq<char>>
    decreases s.len() - i,
{
    if i >= s.len() {
        piece(s.subrange(start, s.len() as int))
    } else if is_separator(s[i]) {
        piece(s.subrange(start, i)) + pieces_from(s, i + 1, i + 1)
    } else {
        pieces_from(s, start, i + 1)
    }
}

/// The components of a path: the root if it starts with a separator, then
/// the non-empty pieces between separators other than `.`.
pub open spec fn components(s: Seq<char>) -> Seq<Seq<char>> {
    (if s.len() > 0 && is_separator(s[0]) {
        seq![root_component()]
    } else {
        Seq::empty()
    }) + pieces_from(s, 0, 0)
}

/// A component that names a directory entry (neither the root nor `..`).
pub open spec fn is_normal(c: Seq<char>) -> bool {
    c != root_component() && c != parent_component()
}

/// Components joined by `/`.
pub open spec fn join(ps: Seq<Seq<char>>) -> Seq<char>
    decreases ps.len(),
{
    if ps.len() == 0 {
        Seq::empty()
    } else if ps.len() == 1 {
        ps[0]
    } else {
        join(ps.drop_last()) + seq!['/'] + ps.last()
    }
}

/// A path's directory-entry components joined by `/`.
pub open spec fn normalized(s: Seq<char>) -> Seq<char> {
    join(components(s).filter(|c: Seq<char>| is_normal(c)))
}

pub open spec fn ends_with(s: Seq<char>, suffix: Seq<char>) -> bool {
    s.len() >= suffix.len() && s.subrange(s.len() - suffix.len(), s.len() as int) == suffix
}

/// The name of the file at `path` below `root`: its directories below the
/// root joined by `/`, then its file name without `suffix`. `None` when
/// `path` is not below `root`, has no file name, or its file name does not
/// end with `suffix`.
pub open spec fn relative_name(path: Seq<char>, root: Seq<char>, suffix: Seq<char>) -> Option<
    Seq<char>,
> {
    let pc = components(path);
    let rc = components(root);
    if rc.len() > pc.len() || pc.subrange(0, rc.len() as int) != rc {
        None
    } else if pc.len() == 0 || !is_normal(pc.last()) || !ends_with(pc.last(), suffix) {
        None
    } else {
        let stem = pc.last().subrange(0, pc.last().len() - suffix.len());
        let rel = pc.subrange(rc.len() as int, pc.len() as int);
        if rel.len() > 1 {
            Some(join(rel.drop_last().filter(|c: Seq<char>| is_normal(c))) + seq!['/'] + stem)
        } else {
            Some(stem)
        }
    }
}

/// `s` written with `/` wherever it has `\`.
pub open spec fn with_slashes(s: Seq<char>) -> Seq<char> {
    s.map_values(|c: char| if c == '\\' { '/' } else { c })
}

proof fn lemma_same_pieces(s: Seq<char>, t: Seq<char>, start: int, i: int)
    requires
        t == with_slashes(s),
        0 <= start <= i <= s.len(),
        forall|k: int| start <= k < i ==> !is_separator(s[k]),
    ensures
        pieces_from(s, start, i) == pieces_from(t, start, i),
    decreases s.len() - i,
{
    if i >= s.len() {
        assert(s.subrange(start, s.len() as int) =~= t.subrange(start, t.len() as int));
    } else if is_separator(s[i]) {
        assert(s.subrange(start, i) =~= t.subrange(start, i));
        lemma_same_pieces(s, t, i + 1, i + 1);
    } else {
        lemma_same_pieces(s, t, start, i + 1);
    }
}

/// A path has the same components whichever separator it is written with.
pub proof fn lemma_components_ignore_separator_style(s: Seq<char>)
    ensures
        components(with_slashes(s)) == components(s),
{
    let t = with_slashes(s);
    lemma_same_pieces(s, t, 0, 0);
}

/// The name derived from a path does not depend on the separator that the
/// path and the root were written with.
pub proof fn lemma_name_ignores_separator_style(path: Seq<char>, root: Seq<char>, suffix: Seq<char>)
    ensures
        relative_name(with_slashes(path), with_slashes(root), suffix) == relative_name(
            path,
            root,
            suffix,
        ),
{
    lemma_components_ignore_separator_style(path);
    lemma_components_ignore_separator_style(root);
}

fn separator_at(s: &str, i: usize) -> (r: bool)
    requires
        i < s@.len(),
    ensures
        r == is_separator(s@[i as int]),
{
    let c = s.get_char(i);
    c == '/' || c == '\\'
}

fn push_piece(out: &mut Vec<String>, s: &str, start: usize, end: usize)
    requires
        start <= end <= s@.len(),
    ensures
        final(out)@.map_values(|c: String| c@) == old(out)@.map_values(|c: String| c@) + piece(
            s@.subrange(start as int, end as int),
        ),
{
    let ghost p = s@.subrange(start as int, end as int);
    let ghost before = out@;
    if end == start {
        assert(final(out)@.map_values(|c: String| c@) =~= before.map_values(|c: String| c@));
        return;
    }
    if end == start + 1 && s.get_char(start) == '.' {
        assert(p =~= seq!['.']);
        assert(final(out)@.map_values(|c: String| c@) =~= before.map_values(|c: String| c@));
        return;
    }
    assert(p != seq!['.']) by {
        if p.len() == 1 {
            assert(p[0] == s@[start as int]);
        }
    }
    out.push(String::from_str(s.substring_char(start, end)));
    assert(out@.map_values(|c: String| c@) =~= before.map_values(|c: String| c@) + seq![p]);
}

/// Splits a path into its components, as [`components`] states.
pub fn path_components(s: &str) -> (r: Vec<String>)
    ensures
        r@.map_values(|c: String| c@) == components(s@),
{
    let n = s.unicode_len();
    let mut out: Vec<String> = Vec::new();
    if n > 0 && separator_at(s, 0) {
        proof {
            reveal_strlit("/");
        }
        let root = String::from_str("/");
        assert(root@ =~= root_component());
        out.push(root);
    }
    assert(out@.map_values(|c: String| c@) =~= (if s@.len() > 0 && is_separator(s@[0]) {
        seq![root_component()]
    } else {
        Seq::empty()
    }));
    let ghost lead = out@.map_values(|c: String| c@);
    let mut start: usize = 0;
    let mut i: usize = 0;
    while i < n
        invariant
            n == s@.len(),
            start <= i <= n,
            components(s@) == lead + pieces_from(s@, 0, 0),
            out@.map_values(|c: String| c@) + pieces_from(s@, start as int, i as int) == lead
                + pieces_from(s@, 0, 0),
        decreases n - i,
    {
        if separator_at(s, i) {
            let ghost before = out@.map_values(|c: String| c@);
            push_piece(&mut out, s, start, i);
            assert(out@.map_values(|c: String| c@) + pieces_from(s@, i + 1, i + 1) =~= before
                + pieces_from(s@, start as int, i as int));
            start = i + 1;
        }
        i = i + 1;
    }
    let ghost before = out@.map_values(|c: String| c@);
    push_piece(&mut out, s, start, n);
    assert(out@.map_values(|c: String| c@) =~= before + pieces_from(s@, start as int, i as int));
    out
}

/// Joins the directory-entry components of `cs[from..to]` with `/`.
fn join_normal(cs: &Vec<String>, from: usize, to: usize) -> (r: String)
    requires
        from <= to <= cs@.len(),
    ensures
        r@ == join(
            cs@.map_values(|c: String| c@).subrange(from as int, to as int).filter(
                |c: Seq<char>| is_normal(c),
            ),
        ),
{
    let ghost all = cs@.map_values(|c: String| c@);
    let ghost keep = |c: Seq<char>| is_normal(c);
    let mut r = String::new();
    let mut any = false;
    let mut i: usize = from;
    proof {
        reveal_strlit("/");
        reveal_strlit("..");
        reveal(Seq::filter);
        assert(all.subrange(from as int, from as int) =~= Seq::<Seq<char>>::empty());
    }
    while i < to
        invariant
            from <= i <= to <= cs@.len(),
            all == cs@.map_values(|c: String| c@),
            keep == (|c: Seq<char>| is_normal(c)),
            r@ == join(all.subrange(from as int, i as int).filter(keep)),
            any == (all.subrange(from as int, i as int).filter(keep).len() > 0),
        decreases to - i,
    {
        let c = &cs[i];
        let ghost sub = all.subrange(from as int, i + 1);
        let ghost prev = all.subrange(from as int, i as int).filter(keep);
        assert(sub.drop_last() =~= all.subrange(from as int, i as int));
        assert(sub.last() == c@);
        proof {
            reveal(Seq::filter);
            reveal_strlit("/");
            reveal_strlit("..");
        }
        let root = String::from_str("/");
        let up = String::from_str("..");
        assert(root@ =~= root_component());
        assert(up@ =~= parent_component());
        if *c != root && *c != up {
            assert(keep(c@));
            assert(sub.filter(keep) == prev.push(c@));
            if any {
                r.append("/");
                assert(prev.push(c@).drop_last() =~= prev);
            }
            r.append(c.as_str());
            assert(r@ =~= join(prev.push(c@)));
            any = true;
        } else {
            assert(!keep(c@));
        }
        i = i + 1;
    }
    r
}

/// The directory-entry components of `path` joined by `/`, whichever
/// separator the path was written with.
pub fn normalize_path_separators(path: &str) -> (r: Result<String, FastarError>)
    ensures
        r matches Ok(s) && s@ == normalized(path@),
{
    let cs = path_components(path);
    let r = join_normal(&cs, 0, cs.len());
    assert(cs@.map_values(|c: String| c@).subrange(0, cs@.len() as int) =~= components(path@));
    Ok(r)
}

fn has_suffix(s: &str, suffix: &str) -> (r: bool)
    ensures
        r == ends_with(s@, suffix@),
{
    let n = s.unicode_len();
    let m = suffix.unicode_len();
    if m > n {
        return false;
    }
    let mut j: usize = 0;
    while j < m
        invariant
            n == s@.len(),
            m == suffix@.len(),
            m <= n,
            j <= m,
            forall|k: int| 0 <= k < j ==> s@[n - m + k] == suffix@[k],
        decreases m - j,
    {
        if s.get_char(n - m + j) != suffix.get_char(j) {
            assert(s@.subrange(n - m, n as int)[j as int] != suffix@[j as int]);
            return false;
        }
        j = j + 1;
    }
    assert(s@.subrange(n - m, n as int) =~= suffix@);
    true
}

/// Whether `rc` lists the first components of `pc`.
fn is_prefix(rc: &Vec<String>, pc: &Vec<String>) -> (r: bool)
    ensures
        r == (rc@.len() <= pc@.len() && pc@.map_values(|c: String| c@).subrange(
            0,
            rc@.len() as int,
        ) == rc@.map_values(|c: String| c@)),
{
    let ghost pv = pc@.map_values(|c: String| c@);
    let ghost rv = rc@.map_values(|c: String| c@);
    if rc.len() > pc.len() {
        return false;
    }
    let mut i: usize = 0;
    while i < rc.len()
        invariant
            rc@.len() <= pc@.len(),
            i <= rc@.len(),
            pv == pc@.map_values(|c: String| c@),
            rv == rc@.map_values(|c: String| c@),
            forall|k: int| 0 <= k < i ==> pv[k] == rv[k],
        decreases rc@.len() - i,
    {
        if rc[i] != pc[i] {
            assert(pv.subrange(0, rc@.len() as int)[i as int] != rv[i as int]);
            return false;
        }
        i = i + 1;
    }
    assert(pv.subrange(0, rc@.len() as int) =~= rv);
    true
}

/// The source name of the file at `path` under `root`: the directories
/// between them joined by `/`, then the file name without `suffix`.
pub fn get_relative_name_without_suffix(path: &str, root: &str, suffix: &str) -> (r: Result<
    String,
    FastarError,
>)
    ensures
        (match relative_name(path@, root@, suffix@) {
            Some(n) => r matches Ok(s) && s@ == n,
            None => r == Err::<String, FastarError>(FastarError::InvalidPath),
        }),
{
    let pc = path_components(path);
    let rc = path_components(root);
    let ghost pv = pc@.map_values(|c: String| c@);
    if !is_prefix(&rc, &pc) {
        return Err(FastarError::InvalidPath);
    }
    if pc.len() == 0 {
        return Err(FastarError::InvalidPath);
    }
    let last = &pc[pc.len() - 1];
    assert(last@ == pv.last());
    proof {
        reveal_strlit("/");
        reveal_strlit("..");
    }
    let root_marker = String::from_str("/");
    let up = String::from_str("..");
    assert(root_marker@ =~= root_component());
    assert(up@ =~= parent_component());
    if *last == root_marker || *last == up {
        return Err(FastarError::InvalidPath);
    }
    if !has_suffix(last.as_str(), suffix) {
        return Err(FastarError::InvalidPath);
    }
    let stem_len = last.as_str().unicode_len() - suffix.unicode_len();
    let stem = last.as_str().substring_char(0, stem_len);
    if pc.len() - rc.len() > 1 {
        let mut name = join_normal(&pc, rc.len(), pc.len() - 1);
        name.append("/");
        name.append(stem);
        proof {
            let rel = pv.subrange(rc@.len() as int, pv.len() as int);
            assert(rel.drop_last() =~= pv.subrange(rc@.len() as int, pv.len() - 1));
        }
        Ok(name)
    } else {
        Ok(String::from_str(stem))
    }
}

} // verus!

verus! {

/// A component written by itself: not empty, not `.` and without
/// separators.
pub open spec fn plain_component(c: Seq<char>) -> bool {
    c.len() > 0 && c != seq!['.'] && forall|k: int| 0 <= k < c.len() ==> !is_separator(c[k])
}

proof fn lemma_pieces_shift(a: Seq<char>, b: Seq<char>, start: int, i: int)
    requires
        0 <= start <= i <= b.len(),
    ensures
        pieces_from(a + b, a.len() + start, a.len() + i) == pieces_from(b, start, i),
    decreases b.len() - i,
{
    let s = a + b;
    if i >= b.len() {
        assert(s.subrange(a.len() + start, s.len() as int) =~= b.subrange(start, b.len() as int));
    } else {
        assert(s[a.len() + i] == b[i]);
        if is_separator(b[i]) {
            assert(s.subrange(a.len() + start, a.len() + i) =~= b.subrange(start, i));
            lemma_pieces_shift(a, b, i + 1, i + 1);
        } else {
            lemma_pieces_shift(a, b, start, i + 1);
        }
    }
}

proof fn lemma_pieces_split(s: Seq<char>, k: int, start: int, i: int)
    requires
        0 <= start <= i <= k < s.len(),
        is_separator(s[k]),
    ensures
        pieces_from(s, start, i) == pieces_from(s.subrange(0, k), start, i) + pieces_from(
            s,
            k + 1,
            k + 1,
        ),
    decreases k - i,
{
    let p = s.subrange(0, k);
    if i == k {
        assert(s.subrange(start, k) =~= p.subrange(start, p.len() as int));
    } else {
        assert(p[i] == s[i]);
        if is_separator(s[i]) {
            assert(s.subrange(start, i) =~= p.subrange(start, i));
            lemma_pieces_split(s, k, i + 1, i + 1);
            assert(piece(s.subrange(start, i)) + (pieces_from(p, i + 1, i + 1) + pieces_from(
                s,
                k + 1,
                k + 1,
            )) =~= piece(p.subrange(start, i)) + pieces_from(p, i + 1, i + 1) + pieces_from(
                s,
                k + 1,
                k + 1,
            ));
        } else {
            lemma_pieces_split(s, k, start, i + 1);
        }
    }
}

proof fn lemma_pieces_plain(c: Seq<char>, i: int)
    requires
        0 <= i <= c.len(),
        forall|k: int| 0 <= k < c.len() ==> !is_separator(c[k]),
    ensures
        pieces_from(c, 0, i) == piece(c),
    decreases c.len() - i,
{
    if i < c.len() {
        lemma_pieces_plain(c, i + 1);
    } else {
        assert(c.subrange(0, c.len() as int) =~= c);
    }
}

/// The pieces of `a`, a separator, then `b`: those of `a`, then those of `b`.
proof fn lemma_pieces_concat(a: Seq<char>, b: Seq<char>)
    ensures
        pieces_from(a + seq!['/'] + b, 0, 0) == pieces_from(a, 0, 0) + pieces_from(b, 0, 0),
{
    let s = a + seq!['/'] + b;
    let k = a.len() as int;
    assert(s[k] == '/');
    lemma_pieces_split(s, k, 0, 0);
    assert(s.subrange(0, k) =~= a);
    assert(s =~= (a + seq!['/']) + b);
    lemma_pieces_shift(a + seq!['/'], b, 0, 0);
}

proof fn lemma_pieces_of_join(ds: Seq<Seq<char>>)
    requires
        forall|i: int| 0 <= i < ds.len() ==> plain_component(#[trigger] ds[i]),
    ensures
        pieces_from(join(ds), 0, 0) == ds,
    decreases ds.len(),
{
    if ds.len() == 0 {
        assert(join(ds).subrange(0, 0) =~= Seq::<char>::empty());
        assert(piece(Seq::<char>::empty()) =~= Seq::<Seq<char>>::empty());
    } else if ds.len() == 1 {
        assert(plain_component(ds[0]));
        lemma_pieces_plain(ds[0], 0);
        assert(seq![ds[0]] =~= ds);
    } else {
        let init = ds.drop_last();
        assert forall|i: int| 0 <= i < init.len() implies plain_component(#[trigger] init[i]) by {
            assert(init[i] == ds[i]);
        }
        lemma_pieces_of_join(init);
        assert(plain_component(ds[ds.len() - 1]));
        lemma_pieces_concat(join(init), ds.last());
        lemma_pieces_plain(ds.last(), 0);
        assert(init + seq![ds.last()] =~= ds);
    }
}

proof fn lemma_filter_keeps_all(ds: Seq<Seq<char>>)
    requires
        forall|i: int| 0 <= i < ds.len() ==> is_normal(#[trigger] ds[i]),
    ensures
        ds.filter(|c: Seq<char>| is_normal(c)) == ds,
    decreases ds.len(),
{
    reveal(Seq::filter);
    if ds.len() > 0 {
        let init = ds.drop_last();
        assert forall|i: int| 0 <= i < init.len() implies is_normal(#[trigger] init[i]) by {
            assert(init[i] == ds[i]);
        }
        lemma_filter_keeps_all(init);
        assert(is_normal(ds[ds.len() - 1]));
        assert(init.push(ds.last()) =~= ds);
    }
}

/// The source name of `root/d1/.../dk/f<suffix>` is `d1/.../dk/f`, joined
/// by `/` whatever separator the platform uses.
pub proof fn lemma_name_of_joined_path(
    root: Seq<char>,
    dirs: Seq<Seq<char>>,
    stem: Seq<char>,
    suffix: Seq<char>,
)
    requires
        root.len() > 0,
        forall|i: int| 0 <= i < dirs.len() ==> plain_component(#[trigger] dirs[i]) && is_normal(
            dirs[i],
        ),
        plain_component(stem + suffix),
        is_normal(stem + suffix),
    ensures
        relative_name(root + seq!['/'] + join(dirs.push(stem + suffix)), root, suffix) == Some(
            join(dirs.push(stem)),
        ),
{
    let file = stem + suffix;
    let all = dirs.push(file);
    let path = root + seq!['/'] + join(all);
    assert forall|i: int| 0 <= i < all.len() implies plain_component(#[trigger] all[i]) by {
        if i < dirs.len() {
            assert(all[i] == dirs[i]);
        }
    }
    lemma_pieces_of_join(all);
    lemma_pieces_concat(root, join(all));
    assert(path[0] == root[0]);
    let rc = components(root);
    let pc = components(path);
    assert(pc =~= rc + all);
    assert(pc.subrange(0, rc.len() as int) =~= rc);
    assert(pc.last() == file);
    assert(file.subrange(file.len() - suffix.len(), file.len() as int) =~= suffix);
    assert(file.subrange(0, file.len() - suffix.len()) =~= stem);
    let rel = pc.subrange(rc.len() as int, pc.len() as int);
    assert(rel =~= all);
    if dirs.len() > 0 {
        assert(rel.drop_last() =~= dirs);
        lemma_filter_keeps_all(dirs);
        assert(dirs.push(stem).drop_last() =~= dirs);
    } else {
        assert(dirs.push(stem) =~= seq![stem]);
    }
}

} // verus!

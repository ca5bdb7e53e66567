//! Shell-log directory sizes: a walk of `cd`/`ls` commands and file listings
//! is folded into a per-directory total, each file counting towards every
//! directory on its path.

use vstd::prelude::*;

verus! {

use crate::arith;
use crate::text;
use vstd::string::StringExecFns;

/// Directory totals as an association list keyed by path, in first-seen
/// order.
pub type Sizes = Seq<(Seq<char>, int)>;

/// The first entry with this key, or the length.
pub open spec fn find_key(es: Sizes, k: Seq<char>) -> int
    decreases es.len(),
{
    if es.len() == 0 {
        0
    } else if es[0].0 == k {
        0
    } else {
        1 + find_key(es.drop_first(), k)
    }
}

pub proof fn lemma_find_key(es: Sizes, k: Seq<char>)
    ensures
        0 <= find_key(es, k) <= es.len(),
        forall|i: int| 0 <= i < find_key(es, k) ==> (#[trigger] es[i]).0 != k,
        find_key(es, k) < es.len() ==> es[find_key(es, k)].0 == k,
    decreases es.len(),
{
    if es.len() > 0 && es[0].0 != k {
        lemma_find_key(es.drop_first(), k);
        assert forall|i: int| 0 <= i < find_key(es, k) implies (#[trigger] es[i]).0 != k by {
            if i > 0 {
                assert(es.drop_first()[i - 1] == es[i]);
                assert(es.drop_first()[i - 1].0 != k);
            }
        }
        if find_key(es, k) < es.len() {
            assert(es.drop_first()[find_key(es, k) - 1] == es[find_key(es, k)]);
        }
    }
}

/// Pins the find index down from a scan's findings.
pub proof fn lemma_find_key_is(es: Sizes, k: Seq<char>, j: int)
    requires
        0 <= j <= es.len(),
        forall|i: int| 0 <= i < j ==> (#[trigger] es[i]).0 != k,
        j < es.len() ==> es[j].0 == k,
    ensures
        find_key(es, k) == j,
{
    lemma_find_key(es, k);
    let i = find_key(es, k);
    if i < j {
        assert(es[i].0 == k);
    }
    if i > j {
        assert(j < es.len());
        assert(es[j].0 != k);
    }
}

/// Adds `sz` to the entry for `k`, appending a fresh entry if none exists;
/// a total past the machine bound invalidates the walk.
pub open spec fn bump(es: Sizes, k: Seq<char>, sz: int) -> Option<Sizes> {
    let i = find_key(es, k);
    if i < es.len() {
        if es[i].1 + sz <= usize::MAX {
            Some(es.update(i, (k, es[i].1 + sz)))
        } else {
            None
        }
    } else {
        Some(es.push((k, sz)))
    }
}

/// Credits `sz` to the root and every directory on the path `cwd`.
pub open spec fn spec_propagate(cwd: Seq<Seq<char>>, key: Seq<char>, sz: int, es: Sizes) -> Option<
    Sizes,
>
    decreases cwd.len(),
{
    match bump(es, key, sz) {
        None => None,
        Some(es2) => {
            if cwd.len() == 0 {
                Some(es2)
            } else {
                spec_propagate(cwd.drop_first(), key + seq!['/'] + cwd[0], sz, es2)
            }
        },
    }
}

pub struct WalkState {
    pub cwd: Seq<Seq<char>>,
    pub cwd_size: int,
    pub sizes: Sizes,
}

/// One log line: a command flushes the pending size into the totals, a file
/// line adds to it, and a `dir` line changes nothing.
pub open spec fn walk_line(st: WalkState, l: Seq<char>) -> Option<WalkState> {
    if l.len() == 0 {
        None
    } else if l[0] == '$' {
        match spec_propagate(st.cwd, seq!['/'], st.cwd_size, st.sizes) {
            None => None,
            Some(sizes2) => {
                if l.len() >= 4 && l.take(4) == seq!['$', ' ', 'c', 'd'] {
                    let ts = text::spec_tokens(l);
                    let dir = ts.last();
                    if dir == seq!['/'] {
                        Some(WalkState { cwd: Seq::empty(), cwd_size: 0, sizes: sizes2 })
                    } else if dir == seq!['.', '.'] {
                        if st.cwd.len() == 0 {
                            None
                        } else {
                            Some(
                                WalkState { cwd: st.cwd.drop_last(), cwd_size: 0, sizes: sizes2 },
                            )
                        }
                    } else {
                        Some(WalkState { cwd: st.cwd.push(dir), cwd_size: 0, sizes: sizes2 })
                    }
                } else if l.len() >= 4 && l.take(4) == seq!['$', ' ', 'l', 's'] {
                    Some(WalkState { cwd: st.cwd, cwd_size: 0, sizes: sizes2 })
                } else {
                    None
                }
            },
        }
    } else if l[0] == 'd' {
        Some(st)
    } else if text::is_digit(l[0]) {
        let ts = text::spec_tokens(l);
        if ts.len() >= 1 && text::spec_parse_usize(ts[0]) is Some && st.cwd_size
            + text::spec_parse_usize(ts[0])->0 <= usize::MAX {
            Some(
                WalkState {
                    cwd: st.cwd,
                    cwd_size: st.cwd_size + text::spec_parse_usize(ts[0])->0,
                    sizes: st.sizes,
                },
            )
        } else {
            None
        }
    } else {
        None
    }
}

/// The walk state after the first `i` lines.
pub open spec fn walk_upto(lines: Seq<Seq<char>>, i: int) -> Option<WalkState>
    decreases i,
{
    if i <= 0 {
        Some(WalkState { cwd: Seq::empty(), cwd_size: 0, sizes: Seq::empty() })
    } else {
        match walk_upto(lines, i - 1) {
            Some(st) => walk_line(st, lines[i - 1]),
            None => None,
        }
    }
}

/// The whole walk succeeds, final flush included.
pub open spec fn parse_ok(s: Seq<char>) -> bool {
    let lines = text::spec_lines(s);
    match walk_upto(lines, lines.len() as int) {
        Some(st) => spec_propagate(st.cwd, seq!['/'], st.cwd_size, st.sizes) is Some,
        None => false,
    }
}

/// The final directory totals: the whole walk, then one last flush.
pub open spec fn spec_sizes(s: Seq<char>) -> Sizes {
    let lines = text::spec_lines(s);
    let st = walk_upto(lines, lines.len() as int)->0;
    spec_propagate(st.cwd, seq!['/'], st.cwd_size, st.sizes)->0
}

pub open spec fn entries_view(es: Seq<(String, usize)>) -> Sizes {
    es.map_values(|e: (String, usize)| (e.0@, e.1 as int))
}

pub open spec fn cwd_view(cwd: Seq<String>) -> Seq<Seq<char>> {
    cwd.map_values(|p: String| p@)
}

/// Adds `sz` to the entry for `key`, appending the key when it is new.
fn bump_entry(entries: &mut Vec<(String, usize)>, key: &String, sz: usize)
    requires
        bump(entries_view(old(entries)@), key@, sz as int) is Some,
    ensures
        entries_view(final(entries)@) == bump(entries_view(old(entries)@), key@, sz as int)->0,
{
    let ghost es = entries_view(entries@);
    proof {
        lemma_find_key(es, key@);
    }
    let mut i: usize = 0;
    while i < entries.len()
        invariant
            i <= es.len(),
            es == entries_view(entries@),
            bump(es, key@, sz as int) is Some,
            forall|j: int| 0 <= j < i ==> (#[trigger] es[j]).0 != key@,
        decreases es.len() - i,
    {
        assert(entries@[i as int].0@ == es[i as int].0);
        if entries[i].0 == *key {
            proof {
                lemma_find_key_is(es, key@, i as int);
            }
            let v = entries[i].1;
            entries[i].1 = v + sz;
            proof {
                assert(entries_view(entries@) =~= bump(es, key@, sz as int)->0);
            }
            return ;
        }
        i = i + 1;
    }
    proof {
        lemma_find_key_is(es, key@, es.len() as int);
    }
    entries.push((key.clone(), sz));
    proof {
        assert(entries@[es.len() as int].0@ == key@);
        assert(entries_view(entries@) =~= bump(es, key@, sz as int)->0);
    }
}

/// Credits the pending size to the root and each directory on the path.
pub fn propagate(cwd: &Vec<String>, cwd_size: usize, dir_sizes: &mut Vec<(String, usize)>)
    requires
        spec_propagate(
            cwd_view(cwd@),
            seq!['/'],
            cwd_size as int,
            entries_view(old(dir_sizes)@),
        ) is Some,
    ensures
        entries_view(final(dir_sizes)@) == spec_propagate(
            cwd_view(cwd@),
            seq!['/'],
            cwd_size as int,
            entries_view(old(dir_sizes)@),
        )->0,
{
    let ghost cwds = cwd_view(cwd@);
    let ghost goal = spec_propagate(cwds, seq!['/'], cwd_size as int, entries_view(dir_sizes@));
    let mut key: String = String::from_str("/");
    proof {
        reveal_strlit("/");
        assert(key@ =~= seq!['/']);
    }
    let mut i: usize = 0;
    proof {
        assert(cwds.skip(0) =~= cwds);
    }
    while i <= cwd.len()
        invariant
            i <= cwds.len() + 1,
            cwds == cwd_view(cwd@),
            i <= cwds.len(),
            goal == spec_propagate(
                cwds.skip(i as int),
                key@,
                cwd_size as int,
                entries_view(dir_sizes@),
            ),
            goal is Some,
        decreases cwds.len() - i,
    {
        let ghost rest = cwds.skip(i as int);
        let ghost es = entries_view(dir_sizes@);
        bump_entry(dir_sizes, &key, cwd_size);
        if i == cwd.len() {
            proof {
                assert(rest.len() == 0);
            }
            return ;
        }
        assert(cwd@[i as int]@ == cwds[i as int]);
        let mut key2 = key;
        key2.append("/");
        key2.append(cwd[i].as_str());
        proof {
            reveal_strlit("/");
            assert(key2@ =~= key@ + seq!['/'] + rest[0]);
            assert(rest.drop_first() =~= cwds.skip((i + 1) as int));
        }
        key = key2;
        i = i + 1;
    }
    proof {
        // The loop leaves only through the return above.
        assert(false);
    }
}

/// Folds the shell log into per-directory totals.
pub fn parse(input: &str) -> (r: Vec<(String, usize)>)
    requires
        parse_ok(input@),
    ensures
        entries_view(r@) == spec_sizes(input@),
{
    let ghost lines_spec = text::spec_lines(input@);
    let chars = text::chars_of(input);
    let lines = text::split_lines(&chars);
    let mut dir_sizes: Vec<(String, usize)> = Vec::new();
    let mut cwd: Vec<String> = Vec::new();
    let mut cwd_size: usize = 0;
    let mut i: usize = 0;
    proof {
        assert(cwd_view(cwd@) =~= Seq::<Seq<char>>::empty());
        assert(entries_view(dir_sizes@) =~= Seq::<(Seq<char>, int)>::empty());
    }
    while i < lines.len()
        invariant
            i <= lines_spec.len(),
            lines@.map_values(|l: Vec<char>| l@) == lines_spec,
            lines_spec == text::spec_lines(input@),
            parse_ok(input@),
            walk_upto(lines_spec, i as int) == Some(
                WalkState {
                    cwd: cwd_view(cwd@),
                    cwd_size: cwd_size as int,
                    sizes: entries_view(dir_sizes@),
                },
            ),
        decreases lines_spec.len() - i,
    {
        let ghost st = walk_upto(lines_spec, i as int)->0;
        proof {
            lemma_walk_prefix_some(lines_spec, (i + 1) as int, lines_spec.len() as int);
            assert(walk_upto(lines_spec, (i + 1) as int) == walk_line(st, lines_spec[i as int]));
        }
        let ghost l = lines_spec[i as int];
        let line = &lines[i];
        assert(line@ == l);
        assert(line@.len() > 0) by {
            if l.len() == 0 {
                assert(walk_line(st, l) is None);
            }
        }
        let c0 = line[0];
        if c0 == '$' {
            propagate(&cwd, cwd_size, &mut dir_sizes);
            cwd_size = 0;
            let is_cd = text::matches_at(line, 0, "$ cd");
            let is_ls = text::matches_at(line, 0, "$ ls");
            proof {
                reveal_strlit("$ cd");
                reveal_strlit("$ ls");
                assert("$ cd"@ =~= seq!['$', ' ', 'c', 'd']);
                assert("$ ls"@ =~= seq!['$', ' ', 'l', 's']);
                if is_cd {
                    assert(l.subrange(0, 4) =~= l.take(4));
                }
                if is_ls {
                    assert(l.subrange(0, 4) =~= l.take(4));
                }
                if !is_cd && l.len() >= 4 {
                    assert(l.subrange(0, 4) =~= l.take(4));
                }
                if !is_ls && l.len() >= 4 {
                    assert(l.subrange(0, 4) =~= l.take(4));
                }
            }
            if is_cd {
                let toks = text::split_tokens(line);
                proof {
                    assert(toks@.map_values(|t: Vec<char>| t@) == text::spec_tokens(l));
                    assert(text::spec_tokens(l).len() > 0) by {
                        if text::spec_tokens(l).len() == 0 {
                            assert(walk_line(st, l) is None);
                        }
                    }
                }
                let dir = &toks[toks.len() - 1];
                proof {
                    assert(dir@ == text::spec_tokens(l).last());
                }
                let is_root = dir.len() == 1 && dir[0] == '/';
                let is_up = dir.len() == 2 && dir[0] == '.' && dir[1] == '.';
                proof {
                    if is_root {
                        assert(dir@ =~= seq!['/']);
                    } else {
                        assert(dir@ != seq!['/']) by {
                            if dir@ == seq!['/'] {
                                assert(dir@.len() == 1 && dir@[0] == '/');
                            }
                        }
                    }
                    if is_up {
                        assert(dir@ =~= seq!['.', '.']);
                    } else {
                        assert(dir@ != seq!['.', '.']) by {
                            if dir@ == seq!['.', '.'] {
                                assert(dir@.len() == 2 && dir@[0] == '.' && dir@[1] == '.');
                            }
                        }
                    }
                }
                if is_root {
                    cwd.clear();
                    proof {
                        assert(cwd_view(cwd@) =~= Seq::<Seq<char>>::empty());
                    }
                } else if is_up {
                    proof {
                        assert(cwd@.len() > 0) by {
                            if cwd_view(cwd@).len() == 0 {
                                assert(walk_line(st, l) is None);
                            }
                        }
                    }
                    let ghost old_cwd = cwd@;
                    let popped = cwd.pop();
                    proof {
                        assert(cwd_view(cwd@) =~= cwd_view(old_cwd).drop_last());
                    }
                    let _ = popped;
                } else {
                    let ghost old_cwd = cwd@;
                    let dir_string = text::string_from_chars(dir);
                    cwd.push(dir_string);
                    proof {
                        assert(cwd_view(cwd@) =~= cwd_view(old_cwd).push(
                            text::spec_tokens(l).last(),
                        ));
                    }
                }
            } else {
                proof {
                    assert(l.len() >= 4 && l.take(4) == seq!['$', ' ', 'l', 's']) by {
                        if !(l.len() >= 4 && l.take(4) == seq!['$', ' ', 'l', 's']) {
                            assert(walk_line(st, l) is None);
                        }
                    }
                }
            }
        } else if c0 == 'd' {
            // A directory entry: nothing to record.
        } else {
            proof {
                assert(text::is_digit(l[0])) by {
                    if !text::is_digit(l[0]) {
                        assert(walk_line(st, l) is None);
                    }
                }
            }
            let toks = text::split_tokens(line);
            proof {
                assert(toks@.map_values(|t: Vec<char>| t@) == text::spec_tokens(l));
                assert(text::spec_tokens(l).len() >= 1 && text::spec_parse_usize(
                    text::spec_tokens(l)[0],
                ) is Some && st.cwd_size + text::spec_parse_usize(text::spec_tokens(l)[0])->0
                    <= usize::MAX) by {
                    if !(text::spec_tokens(l).len() >= 1 && text::spec_parse_usize(
                        text::spec_tokens(l)[0],
                    ) is Some && st.cwd_size + text::spec_parse_usize(
                        text::spec_tokens(l)[0],
                    )->0 <= usize::MAX) {
                        assert(walk_line(st, l) is None);
                    }
                }
                assert(toks@[0]@ == text::spec_tokens(l)[0]);
            }
            match text::parse_usize_chars(toks[0].as_slice()) {
                Some(v) => {
                    cwd_size = cwd_size + v;
                },
                None => {
                    proof {
                        assert(false);
                    }
                },
            }
        }
        i = i + 1;
    }
    proof {
        let st = walk_upto(lines_spec, lines_spec.len() as int)->0;
        assert(spec_propagate(st.cwd, seq!['/'], st.cwd_size, st.sizes) is Some);
    }
    propagate(&cwd, cwd_size, &mut dir_sizes);
    dir_sizes
}

/// A failed prefix dooms the whole walk.
proof fn lemma_walk_prefix_some(lines: Seq<Seq<char>>, i: int, j: int)
    requires
        0 <= i <= j <= lines.len(),
        walk_upto(lines, j) is Some,
    ensures
        walk_upto(lines, i) is Some,
    decreases j - i,
{
    if i < j {
        lemma_walk_prefix_some(lines, i + 1, j);
    }
}

pub open spec fn small_flags(es: Sizes) -> Seq<int> {
    es.map_values(
        |e: (Seq<char>, int)|
            if e.1 <= 100000 {
                e.1
            } else {
                0int
            },
    )
}

/// The sum of the totals of at most 100000.
pub fn part1(puzzle: &Vec<(String, usize)>) -> (r: usize)
    requires
        puzzle@.len() * 100000 <= usize::MAX,
    ensures
        r == arith::sum(small_flags(entries_view(puzzle@))),
{
    let ghost s = small_flags(entries_view(puzzle@));
    let mut total: usize = 0;
    let mut i: usize = 0;
    proof {
        assert(s.take(0) =~= Seq::<int>::empty());
    }
    while i < puzzle.len()
        invariant
            i <= puzzle@.len(),
            s == small_flags(entries_view(puzzle@)),
            puzzle@.len() * 100000 <= usize::MAX,
            total == arith::sum(s.take(i as int)),
            0 <= total <= i * 100000,
        decreases puzzle@.len() - i,
    {
        proof {
            arith::lemma_sum_take_step(s, i as int);
            assert(s[i as int] == if entries_view(puzzle@)[i as int].1 <= 100000 {
                entries_view(puzzle@)[i as int].1
            } else {
                0int
            });
            assert((i + 1) * 100000 == i * 100000 + 100000) by (nonlinear_arith);
            assert(i * 100000 + 100000 <= puzzle@.len() * 100000) by (nonlinear_arith)
                requires
                    i + 1 <= puzzle@.len(),
            ;
        }
        let v = puzzle[i].1;
        if v <= 100000 {
            total = total + v;
        }
        i = i + 1;
    }
    proof {
        assert(s.take(puzzle@.len() as int) =~= s);
    }
    total
}

/// The total recorded for the root.
pub open spec fn root_size(es: Sizes) -> int {
    es[find_key(es, seq!['/'])].1
}

/// The smallest directory total that frees enough space: the disk holds
/// 70000000 and the update needs 30000000.
pub fn part2(puzzle: &Vec<(String, usize)>) -> (r: usize)
    requires
        find_key(entries_view(puzzle@), seq!['/']) < puzzle@.len(),
        40000000 <= root_size(entries_view(puzzle@)) <= 70000000,
    ensures
        ({
            let es = entries_view(puzzle@);
            let needed = root_size(es) - 40000000;
            &&& r >= needed
            &&& exists|i: int| 0 <= i < es.len() && (#[trigger] es[i]).1 == r
            &&& forall|i: int| 0 <= i < es.len() && (#[trigger] es[i]).1 >= needed ==> r <= es[i].1
        }),
{
    let ghost es = entries_view(puzzle@);
    proof {
        lemma_find_key(es, seq!['/']);
    }
    let mut root: Option<usize> = None;
    let mut i: usize = 0;
    let ghost rk = find_key(es, seq!['/']);
    while i < puzzle.len()
        invariant
            i <= puzzle@.len(),
            es == entries_view(puzzle@),
            0 <= rk < es.len(),
            es[rk].0 == seq!['/'],
            forall|j: int| 0 <= j < rk ==> (#[trigger] es[j]).0 != seq!['/'],
            root is Some ==> rk < i && root->0 == es[rk].1,
            root is None ==> i <= rk,
        decreases puzzle@.len() - i,
    {
        proof {
            assert(puzzle@[i as int].0@ == es[i as int].0);
        }
        if root.is_none() {
            let k = &puzzle[i].0;
            let is_root_key = k.unicode_len() == 1 && k.as_str().get_char(0) == '/';
            proof {
                if is_root_key {
                    assert(k@ =~= seq!['/']);
                    assert(rk == i);
                } else {
                    assert(k@ != seq!['/']) by {
                        if k@ == seq!['/'] {
                            assert(k@.len() == 1 && k@[0] == '/');
                        }
                    }
                }
            }
            if is_root_key {
                root = Some(puzzle[i].1);
            }
        }
        i = i + 1;
    }
    let fs_used = match root {
        Some(v) => v,
        None => {
            proof {
                assert(false);
            }
            vstd::pervasive::unreached()
        },
    };
    let space_needed = 30000000 - (70000000 - fs_used);
    let mut best: Option<usize> = None;
    let mut i: usize = 0;
    while i < puzzle.len()
        invariant
            i <= puzzle@.len(),
            es == entries_view(puzzle@),
            space_needed == root_size(es) - 40000000,
            0 <= space_needed,
            match best {
                Some(b) => {
                    &&& b >= space_needed
                    &&& exists|j: int| 0 <= j < i && (#[trigger] es[j]).1 == b
                    &&& forall|j: int|
                        0 <= j < i && (#[trigger] es[j]).1 >= space_needed ==> b <= es[j].1
                },
                None => forall|j: int| 0 <= j < i ==> (#[trigger] es[j]).1 < space_needed,
            },
        decreases puzzle@.len() - i,
    {
        proof {
            assert(es[i as int].1 == puzzle@[i as int].1 as int);
        }
        let v = puzzle[i].1;
        if v >= space_needed {
            match best {
                Some(b) => {
                    if v < b {
                        best = Some(v);
                    }
                },
                None => {
                    best = Some(v);
                },
            }
        }
        i = i + 1;
    }
    match best {
        Some(b) => b,
        None => {
            proof {
                assert(es[rk].1 >= root_size(es) - 40000000);
                assert(false);
            }
            vstd::pervasive::unreached()
        },
    }
}

} // verus!

//! File discovery and annotation scanning.
//!
//! The caller walks a repository working tree and reads files; this
//! module holds every decision: which relative paths count as hidden,
//! which match the whitelist pattern, where a schedule annotation sits in
//! a file's lines, and which interpreter launches a discovered file.

use vstd::prelude::*;
use vstd::string::*;

use crate::errors::Error;
use crate::rex::{re_match, re_valid, regex_is_match, regex_new};
use crate::strutil::{
    chars_vec, find_idx, has_prefix, lemma_find_idx_is, lemma_find_idx_none, lemma_rfind_idx_is,
    rfind_idx, str_has_prefix, vec_has_prefix_at,
};

verus! {

/// ASCII whitespace, as `str::split_ascii_whitespace` sees it.
pub open spec fn is_ws(c: char) -> bool {
    c == ' ' || c == '\t' || c == '\n' || c == '\r' || c == '\u{c}'
}

/// `s` with leading and trailing whitespace removed.
pub open spec fn trim_ws(s: Seq<char>) -> Seq<char> {
    let a = find_idx(s, |c: char| !is_ws(c));
    if a == -1 {
        Seq::empty()
    } else {
        let b = rfind_idx(s, |c: char| !is_ws(c));
        s.subrange(a, b + 1)
    }
}

/// Position of the first schedule annotation in a line, or `-1`.
pub open spec fn cron_pos(l: Seq<char>) -> int
    decreases l.len(),
{
    if has_prefix(l, "@cron "@) {
        0
    } else if l.len() == 0 {
        -1
    } else {
        let r = cron_pos(l.drop_first());
        if r == -1 {
            -1
        } else {
            r + 1
        }
    }
}

/// The schedule carried by a line's annotation: everything after the
/// first annotation token, trimmed.
pub open spec fn cron_in_line(l: Seq<char>) -> Option<Seq<char>> {
    let i = cron_pos(l);
    if i == -1 {
        None
    } else {
        Some(trim_ws(l.skip(i + "@cron "@.len())))
    }
}

/// The first annotated line's schedule, scanning a file's lines in order.
pub open spec fn cron_in_file(lines: Seq<Seq<char>>) -> Option<Seq<char>>
    decreases lines.len(),
{
    if lines.len() == 0 {
        None
    } else if cron_in_line(lines[0]) is Some {
        cron_in_line(lines[0])
    } else {
        cron_in_file(lines.drop_first())
    }
}

/// Whether a file declares its own interpreter on its first line.
pub open spec fn shebang_of(lines: Seq<Seq<char>>) -> bool {
    lines.len() > 0 && has_prefix(lines[0], "#!"@)
}

/// A relative path with a component that begins with the hidden-file
/// marker.
pub open spec fn hidden_rel_path(p: Seq<char>) -> bool {
    (p.len() > 0 && p[0] == '.') || exists|i: int|
        0 <= i < p.len() - 1 && (#[trigger] p[i]) == '/' && p[i + 1] == '.'
}

/// A relative path the discovery keeps: not hidden, and matched by the
/// whitelist pattern.
pub open spec fn file_selected(pattern: Seq<char>, p: Seq<char>) -> bool {
    !hidden_rel_path(p) && re_match(pattern, p)
}

/// The views of a sequence of strings.
pub open spec fn str_views(s: Seq<String>) -> Seq<Seq<char>> {
    s.map_values(|x: String| x@)
}

/// The last path segment of a repository source, up to its first dot:
/// the name under which the repository is registered on disk.
pub open spec fn repo_name_of(s: Seq<char>) -> Seq<char> {
    let seg_start = rfind_idx(s, |c: char| c == '/') + 1;
    let seg = s.skip(seg_start);
    let dot = find_idx(seg, |c: char| c == '.');
    if dot == -1 {
        seg
    } else {
        seg.take(dot)
    }
}

/// The extension of the last path segment, if the segment has a dot
/// after its first character.
pub open spec fn ext_of(p: Seq<char>) -> Option<Seq<char>> {
    let seg_start = rfind_idx(p, |c: char| c == '/') + 1;
    let seg = p.skip(seg_start);
    let dot = rfind_idx(seg, |c: char| c == '.');
    if dot <= 0 {
        None
    } else {
        Some(seg.skip(dot + 1))
    }
}

/// The interpreter invocation chosen for a file, by its extension; an
/// unmapped or missing extension falls back to a shell invocation.
pub open spec fn launcher_of(p: Seq<char>) -> Seq<char> {
    match ext_of(p) {
        Some(e) => {
            if e.len() == 2 && (e[0] == 'p' || e[0] == 'P') && (e[1] == 'y' || e[1] == 'Y') {
                "/usr/bin/env python3"@
            } else if e.len() == 2 && (e[0] == 'j' || e[0] == 'J') && (e[1] == 's' || e[1]
                == 'S') {
                "/usr/bin/env node"@
            } else {
                "/bin/sh"@
            }
        },
        None => "/bin/sh"@,
    }
}

/// A source is cloned over the network when it names a web URL scheme.
pub open spec fn is_git_source(s: Seq<char>) -> bool {
    has_prefix(s, "http://"@) || has_prefix(s, "https://"@)
}

/// One file of a repository working tree, as the caller read it: its
/// relative path (forward-slash separated, no leading slash) and its
/// lines.
pub struct ScanFile {
    pub path: String,
    pub lines: Vec<String>,
}

/// One discovered task: a kept relative path, the schedule its annotation
/// carries, and whether the file declares its own interpreter.
pub struct FoundTask {
    pub path: String,
    pub cron: String,
    pub shebang: bool,
}

/// Mathematical image of [`ScanFile`].
#[verifier::ext_equal]
pub struct ScanFileV {
    pub path: Seq<char>,
    pub lines: Seq<Seq<char>>,
}

/// Mathematical image of [`FoundTask`].
#[verifier::ext_equal]
pub struct FoundTaskV {
    pub path: Seq<char>,
    pub cron: Seq<char>,
    pub shebang: bool,
}

impl View for ScanFile {
    type V = ScanFileV;

    open spec fn view(&self) -> ScanFileV {
        ScanFileV { path: self.path@, lines: str_views(self.lines@) }
    }
}

impl View for FoundTask {
    type V = FoundTaskV;

    open spec fn view(&self) -> FoundTaskV {
        FoundTaskV { path: self.path@, cron: self.cron@, shebang: self.shebang }
    }
}

/// The views of a sequence of scanned files.
pub open spec fn file_views(s: Seq<ScanFile>) -> Seq<ScanFileV> {
    s.map_values(|f: ScanFile| f@)
}

/// The views of a sequence of discovered tasks.
pub open spec fn task_views(s: Seq<FoundTask>) -> Seq<FoundTaskV> {
    s.map_values(|t: FoundTask| t@)
}

/// What discovery makes of one scanned file: a task if the file is kept
/// by the pattern and carries an annotation, nothing otherwise.
pub open spec fn discover_one(pattern: Seq<char>, f: ScanFileV) -> Option<FoundTaskV> {
    if file_selected(pattern, f.path) {
        match cron_in_file(f.lines) {
            Some(c) => Some(FoundTaskV { path: f.path, cron: c, shebang: shebang_of(f.lines) }),
            None => None,
        }
    } else {
        None
    }
}

/// The discovery result over a scanned tree, in the tree's order.
pub open spec fn discover(pattern: Seq<char>, fs: Seq<ScanFileV>) -> Seq<FoundTaskV> {
    fs.filter_map(|f: ScanFileV| discover_one(pattern, f))
}

/// Whether `c` is ASCII whitespace.
pub(crate) fn is_ws_c(c: char) -> (r: bool)
    ensures
        r == is_ws(c),
{
    c == ' ' || c == '\t' || c == '\n' || c == '\r' || c == '\u{c}'
}

/// The registered name derived from a repository source: the last path
/// segment, with everything from its first dot on stripped.
pub fn get_repo_name(repo: &str) -> (r: String)
    ensures
        r@ == repo_name_of(repo@),
{
    let v = chars_vec(repo);
    let n = v.len();
    let start = match crate::strutil::rfind_char_range(&v, 0, n, '/') {
        Some(k) => {
            proof {
                lemma_rfind_idx_is(v@, |c: char| c == '/', k as int);
            }
            k + 1
        },
        None => {
            proof {
                crate::strutil::lemma_rfind_idx_none(v@, |c: char| c == '/');
            }
            0
        },
    };
    proof {
        assert(start == rfind_idx(v@, |c: char| c == '/') + 1);
    }
    let ghost seg = v@.skip(start as int);
    proof {
        assert(forall|k: int| 0 <= k < seg.len() ==> seg[k] == v@[start + k]);
    }
    let j = match crate::strutil::find_char_from(&v, start, '.') {
        Some(k) => {
            proof {
                lemma_find_idx_is(seg, |c: char| c == '.', k - start);
            }
            k
        },
        None => {
            proof {
                lemma_find_idx_none(seg, |c: char| c == '.');
            }
            n
        },
    };
    proof {
        assert(repo_name_of(repo@) =~= repo@.subrange(start as int, j as int));
    }
    repo.substring_char(start, j).to_owned()
}

/// The working directory a repository is cloned into, under the `repo`
/// subdirectory of the working root.
pub fn get_repo_dir(repo: &str, work_dir: &str) -> (r: String)
    ensures
        r@ == work_dir@ + "/repo/"@ + repo_name_of(repo@),
{
    let name = get_repo_name(repo);
    let r = String::from_str(work_dir).concat("/repo/").concat(name.as_str());
    proof {
        assert(r@ =~= work_dir@ + "/repo/"@ + repo_name_of(repo@));
    }
    r
}

/// Whether a repository source is fetched over the network.
pub fn is_git_repo(repo: &str) -> (r: bool)
    ensures
        r == is_git_source(repo@),
{
    str_has_prefix(repo, "http://") || str_has_prefix(repo, "https://")
}

/// Whether a file's first line declares an interpreter.
pub fn has_shebang(lines: &Vec<String>) -> (r: bool)
    ensures
        r == shebang_of(str_views(lines@)),
{
    if lines.len() == 0 {
        return false;
    }
    str_has_prefix(lines[0].as_str(), "#!")
}

/// The interpreter invocation for a discovered file, chosen by its
/// extension.
pub fn gen_launcher(file: &str) -> (r: String)
    ensures
        r@ == launcher_of(file@),
{
    let v = chars_vec(file);
    let n = v.len();
    let start = match crate::strutil::rfind_char_range(&v, 0, n, '/') {
        Some(k) => {
            proof {
                lemma_rfind_idx_is(v@, |c: char| c == '/', k as int);
            }
            k + 1
        },
        None => {
            proof {
                crate::strutil::lemma_rfind_idx_none(v@, |c: char| c == '/');
            }
            0
        },
    };
    proof {
        assert(start == rfind_idx(v@, |c: char| c == '/') + 1);
    }
    let ghost seg = v@.skip(start as int);
    proof {
        assert(forall|k: int| 0 <= k < seg.len() ==> seg[k] == v@[start + k]);
    }
    // last '.' of the segment: `j` is the position just after it
    let j = match crate::strutil::rfind_char_range(&v, start, n, '.') {
        Some(k) => {
            proof {
                lemma_rfind_idx_is(seg, |c: char| c == '.', k - start);
            }
            k + 1
        },
        None => {
            proof {
                crate::strutil::lemma_rfind_idx_none(seg, |c: char| c == '.');
            }
            start
        },
    };
    if j - start <= 1 {
        // no extension, or a dot only at the segment's first character
        proof {
            assert(ext_of(file@) is None);
        }
        return String::from_str("/bin/sh");
    }
    let ghost dot = (j - 1 - start) as int;
    proof {
        assert(ext_of(file@) == Some(seg.skip(dot + 1)));
        assert(seg.skip(dot + 1) =~= v@.subrange(j as int, n as int));
    }
    let elen = n - j;
    if elen == 2 {
        let e0 = v[j];
        let e1 = v[j + 1];
        if (e0 == 'p' || e0 == 'P') && (e1 == 'y' || e1 == 'Y') {
            return String::from_str("/usr/bin/env python3");
        }
        if (e0 == 'j' || e0 == 'J') && (e1 == 's' || e1 == 'S') {
            return String::from_str("/usr/bin/env node");
        }
        return String::from_str("/bin/sh");
    }
    String::from_str("/bin/sh")
}

/// Position of the first annotation token in `v`, if any.
fn find_cron_pos(v: &Vec<char>) -> (r: Option<usize>)
    ensures
        match r {
            Some(k) => k < v@.len() && has_prefix(v@.skip(k as int), "@cron "@) && (forall|t: int|
                0 <= t < k ==> !has_prefix(#[trigger] v@.skip(t), "@cron "@)),
            None => forall|t: int| 0 <= t <= v@.len() ==> !has_prefix(#[trigger] v@.skip(t), "@cron "@),
        },
{
    proof {
        reveal_strlit("@cron ");
    }
    let n = v.len();
    let mut i: usize = 0;
    while i < n
        invariant
            i <= n,
            n == v@.len(),
            forall|t: int| 0 <= t < i ==> !has_prefix(#[trigger] v@.skip(t), "@cron "@),
        decreases n - i,
    {
        if vec_has_prefix_at(v, i, "@cron ") {
            return Some(i);
        }
        i = i + 1;
    }
    proof {
        assert forall|t: int| 0 <= t <= v@.len() implies !has_prefix(
            #[trigger] v@.skip(t),
            "@cron "@,
        ) by {
            if t >= n {
                assert(v@.skip(t).len() == 0);
            }
        }
    }
    None
}

/// First non-whitespace position in `v[from..]`, if any.
fn find_non_ws_from(v: &Vec<char>, from: usize) -> (r: Option<usize>)
    requires
        from <= v@.len(),
    ensures
        match r {
            Some(k) => from <= k < v@.len() && !is_ws(v@[k as int]) && (forall|t: int|
                from <= t < k ==> is_ws(v@[t])),
            None => forall|t: int| from <= t < v@.len() ==> is_ws(v@[t]),
        },
{
    let n = v.len();
    let mut i: usize = from;
    while i < n
        invariant
            from <= i <= n,
            n == v@.len(),
            forall|t: int| from <= t < i ==> is_ws(v@[t]),
        decreases n - i,
    {
        if !is_ws_c(v[i]) {
            return Some(i);
        }
        i = i + 1;
    }
    None
}

/// Last non-whitespace position in `v[from..]`, if any.
fn rfind_non_ws_from(v: &Vec<char>, from: usize) -> (r: Option<usize>)
    requires
        from <= v@.len(),
    ensures
        match r {
            Some(k) => from <= k < v@.len() && !is_ws(v@[k as int]) && (forall|t: int|
                k < t < v@.len() ==> is_ws(v@[t])),
            None => forall|t: int| from <= t < v@.len() ==> is_ws(v@[t]),
        },
{
    let n = v.len();
    let mut i: usize = n;
    while i > from
        invariant
            from <= i <= n,
            n == v@.len(),
            forall|t: int| i <= t < n ==> is_ws(v@[t]),
        decreases i,
    {
        if !is_ws_c(v[i - 1]) {
            return Some(i - 1);
        }
        i = i - 1;
    }
    None
}

/// The schedule an annotated line carries, if any.
fn find_cron_in_line(line: &str) -> (r: Option<String>)
    ensures
        match r {
            Some(s) => cron_in_line(line@) == Some(s@),
            None => cron_in_line(line@) is None,
        },
{
    proof {
        reveal_strlit("@cron ");
    }
    let v = chars_vec(line);
    let n = v.len();
    let pos = match find_cron_pos(&v) {
        Some(k) => k,
        None => {
            proof {
                lemma_cron_pos_none(v@);
            }
            return None;
        },
    };
    proof {
        lemma_cron_pos_is(v@, pos as int);
        assert(cron_pos(line@) == pos);
    }
    // trim the rest of the line
    let start = pos + 6;
    proof {
        assert("@cron "@.len() == 6);
        assert(start <= n);
    }
    let ghost rest = line@.skip(start as int);
    proof {
        assert(forall|k: int| 0 <= k < rest.len() ==> rest[k] == line@[start + k]);
    }
    let a = match find_non_ws_from(&v, start) {
        Some(k) => k,
        None => {
            proof {
                lemma_find_idx_none(rest, |c: char| !is_ws(c));
                assert(trim_ws(rest) =~= Seq::<char>::empty());
            }
            return Some(String::new());
        },
    };
    proof {
        lemma_find_idx_is(rest, |c: char| !is_ws(c), a - start);
    }
    let b = match rfind_non_ws_from(&v, start) {
        Some(k) => k + 1,
        None => {
            proof {
                assert(is_ws(v@[a as int]));
            }
            0
        },
    };
    proof {
        lemma_rfind_idx_is(rest, |c: char| !is_ws(c), b - 1 - start);
        assert(trim_ws(rest) =~= line@.subrange(a as int, b as int));
    }
    Some(line.substring_char(a, b).to_owned())
}

/// `cron_pos` when no position carries the annotation.
proof fn lemma_cron_pos_none(l: Seq<char>)
    requires
        forall|k: int| 0 <= k < l.len() ==> !has_prefix(#[trigger] l.skip(k), "@cron "@),
        !has_prefix(l.skip(l.len() as int), "@cron "@),
    ensures
        cron_pos(l) == -1,
    decreases l.len(),
{
    assert(l.skip(0) =~= l);
    if l.len() > 0 {
        assert forall|k: int| 0 <= k <= l.drop_first().len() implies !has_prefix(
            #[trigger] l.drop_first().skip(k),
            "@cron "@,
        ) by {
            assert(l.drop_first().skip(k) =~= l.skip(k + 1));
        }
        lemma_cron_pos_none(l.drop_first());
    }
}

/// `cron_pos` of a known first annotation position.
proof fn lemma_cron_pos_is(l: Seq<char>, i: int)
    requires
        0 <= i <= l.len(),
        has_prefix(l.skip(i), "@cron "@),
        forall|k: int| 0 <= k < i ==> !has_prefix(#[trigger] l.skip(k), "@cron "@),
    ensures
        cron_pos(l) == i,
    decreases l.len(),
{
    assert(l.skip(0) =~= l);
    if i == 0 {
    } else {
        assert(l.len() > 0) by {
            reveal_strlit("@cron ");
            assert(l.skip(i).len() >= "@cron "@.len());
        }
        assert forall|k: int| 0 <= k < i - 1 implies !has_prefix(
            #[trigger] l.drop_first().skip(k),
            "@cron "@,
        ) by {
            assert(l.drop_first().skip(k) =~= l.skip(k + 1));
        }
        assert(l.drop_first().skip(i - 1) =~= l.skip(i));
        lemma_cron_pos_is(l.drop_first(), i - 1);
    }
}

/// The first annotated line's schedule among a file's lines.
pub fn find_cron_in_file(lines: &Vec<String>) -> (r: Option<String>)
    ensures
        match r {
            Some(s) => cron_in_file(str_views(lines@)) == Some(s@),
            None => cron_in_file(str_views(lines@)) is None,
        },
{
    let n = lines.len();
    proof {
        assert(str_views(lines@).skip(0) =~= str_views(lines@));
    }
    let mut i: usize = 0;
    while i < n
        invariant
            i <= n,
            n == lines@.len(),
            cron_in_file(str_views(lines@)) == cron_in_file(str_views(lines@).skip(i as int)),
        decreases n - i,
    {
        let r = find_cron_in_line(lines[i].as_str());
        proof {
            assert(str_views(lines@).skip(i as int)[0] == lines@[i as int]@);
            assert(str_views(lines@).skip(i as int).drop_first() =~= str_views(lines@).skip(
                i + 1,
            ));
        }
        if let Some(c) = r {
            return Some(c);
        }
        i = i + 1;
    }
    proof {
        assert(str_views(lines@).skip(n as int) =~= Seq::<Seq<char>>::empty());
    }
    None
}

/// Whether a relative path has a hidden component.
pub fn is_hidden_path(p: &str) -> (r: bool)
    ensures
        r == hidden_rel_path(p@),
{
    let v = chars_vec(p);
    let n = v.len();
    if n == 0 {
        return false;
    }
    if v[0] == '.' {
        return true;
    }
    let m = n - 1;
    let mut i: usize = 0;
    while i < m
        invariant
            i <= m,
            m == n - 1,
            n == v@.len(),
            v@ == p@,
            forall|k: int| 0 <= k < i ==> !((#[trigger] v@[k]) == '/' && v@[k + 1] == '.'),
        decreases n - i,
    {
        if v[i] == '/' && v[i + 1] == '.' {
            return true;
        }
        i = i + 1;
    }
    false
}

/// The relative paths the whitelist keeps: not hidden, and matching the
/// pattern. Fails exactly when the pattern is not a valid regular
/// expression.
pub fn find_files_by_regex(paths: &Vec<String>, pattern: &str) -> (r: Result<Vec<String>, Error>)
    ensures
        r is Ok <==> re_valid(pattern@),
        r matches Ok(v) ==> v@ == paths@.filter(
            |p: String| file_selected(pattern@, p@),
        ),
        r matches Err(e) ==> e == Error::BadPattern,
{
    let re = match regex_new(pattern) {
        Some(re) => re,
        None => {
            return Err(Error::BadPattern);
        },
    };
    let n = paths.len();
    let mut out: Vec<String> = Vec::new();
    proof {
        let pred = |p: String| file_selected(pattern@, p@);
        reveal(Seq::filter);
        assert(paths@.subrange(0, 0).filter(pred) =~= Seq::<String>::empty());
    }
    let mut i: usize = 0;
    while i < n
        invariant
            i <= n,
            n == paths@.len(),
            crate::rex::re_source(re) == pattern@,
            out@ == paths@.subrange(0, i as int).filter(|p: String| file_selected(pattern@, p@)),
        decreases n - i,
    {
        let keep = !is_hidden_path(paths[i].as_str()) && regex_is_match(&re, paths[i].as_str());
        if keep {
            out.push(paths[i].clone());
        }
        proof {
            let pred = |p: String| file_selected(pattern@, p@);
            let pref = paths@.subrange(0, i + 1);
            assert(pred(paths@[i as int]) == keep);
            paths@.subrange(0, i as int).lemma_filter_push(paths@[i as int], pred);
            assert(paths@.subrange(0, i as int).push(paths@[i as int]) =~= pref);
            assert(out@ == pref.filter(pred));
        }
        i = i + 1;
    }
    proof {
        assert(paths@.subrange(0, n as int) =~= paths@);
    }
    Ok(out)
}

/// Discovery over a scanned tree: every kept, annotated file, with its
/// schedule and interpreter marker, in the tree's order. Fails exactly
/// when the pattern is not a valid regular expression.
pub fn find_cron_files(files: &Vec<ScanFile>, pattern: &str) -> (r: Result<Vec<FoundTask>, Error>)
    ensures
        r is Ok <==> re_valid(pattern@),
        r matches Ok(v) ==> task_views(v@) == discover(pattern@, file_views(files@)),
        r matches Err(e) ==> e == Error::BadPattern,
{
    let re = match regex_new(pattern) {
        Some(re) => re,
        None => {
            return Err(Error::BadPattern);
        },
    };
    let n = files.len();
    let mut out: Vec<FoundTask> = Vec::new();
    let mut i: usize = 0;
    while i < n
        invariant
            i <= n,
            n == files@.len(),
            crate::rex::re_source(re) == pattern@,
            task_views(out@) == discover(pattern@, file_views(files@.subrange(0, i as int))),
        decreases n - i,
    {
        let f = &files[i];
        let keep = !is_hidden_path(f.path.as_str()) && regex_is_match(&re, f.path.as_str());
        let ghost out0 = out@;
        if keep {
            if let Some(cron) = find_cron_in_file(&f.lines) {
                let shebang = has_shebang(&f.lines);
                out.push(FoundTask { path: f.path.clone(), cron, shebang });
            }
        }
        proof {
            let pref = file_views(files@.subrange(0, i + 1));
            assert(pref.drop_last() =~= file_views(files@.subrange(0, i as int)));
            assert(pref.last() == files@[i as int]@);
            assert(task_views(out@) =~= discover(pattern@, pref));
        }
        i = i + 1;
    }
    proof {
        assert(files@.subrange(0, n as int) =~= files@);
    }
    Ok(out)
}

} // verus!

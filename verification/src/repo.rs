//! The repository reconciliation engine.
//!
//! A repository registered with the system owns one registry entry —
//! group set to the reserved tag, name set to the source — and one task
//! entry per discovered file, grouped under the source. The operations
//! here add such a group, remove it by name or by registry index, rebuild
//! every group from fresh discovery results, and list what is registered;
//! each one is a pure function on the in-memory table, and the caller
//! persists the result in a single rewrite.

use vstd::prelude::*;
use vstd::string::*;

use crate::errors::Error;
use crate::item::{views, Item, ItemArgs, ItemArgsV, ItemV, Payload, PayloadV, RepoArgs, RepoArgsV};
use crate::scan::{
    gen_launcher, get_repo_name, is_git_repo, is_git_source, launcher_of, repo_name_of,
    task_views, FoundTask, FoundTaskV,
};
use crate::strutil::str_eq;

verus! {

/// The reserved group tag of registry entries.
pub open spec fn repo_tag() -> Seq<char> {
    "_repo"@
}

/// A structured entry of the given group.
pub open spec fn in_group(iv: ItemV, group: Seq<char>) -> bool {
    iv.args matches PayloadV::Structured(a) && a.group == group
}

/// An entry owned by repository `name`: its registry entry, or any task
/// entry grouped under it.
pub open spec fn owned_by(iv: ItemV, name: Seq<char>) -> bool {
    match iv.args {
        PayloadV::Structured(a) => (a.group == repo_tag() && a.name == name) || a.group == name,
        PayloadV::Opaque(_) => false,
    }
}

/// The table entries kept by a scoped removal: those not owned by `repo`.
pub open spec fn keep_item(repo: Seq<char>) -> spec_fn(Item) -> bool {
    |i: Item| !owned_by(i@, repo)
}

/// The same removal predicate on item views.
pub open spec fn not_owned(repo: Seq<char>) -> spec_fn(ItemV) -> bool {
    |iv: ItemV| !owned_by(iv, repo)
}

/// The name a registry entry carries.
pub open spec fn reg_name(i: Item) -> Seq<char> {
    match i@.args {
        PayloadV::Structured(a) => a.name,
        PayloadV::Opaque(_) => Seq::empty(),
    }
}

/// A registry entry whose repository occupies the on-disk directory `d`:
/// the entry's source, reduced to its derived name, equals `d`. Working
/// trees live under the derived name, so this — not the full source — is
/// what scopes directory ownership and registration conflicts.
pub open spec fn claims_dir(iv: ItemV, d: Seq<char>) -> bool {
    iv.args matches PayloadV::Structured(a) && a.group == repo_tag() && repo_name_of(a.name) == d
}

/// Whether some registry entry's repository occupies the directory named
/// `dir`.
pub fn dir_claimed(tabs: &Vec<Item>, dir: &str) -> (r: bool)
    ensures
        r == exists|k: int| 0 <= k < tabs@.len() && claims_dir((#[trigger] tabs@[k])@, dir@),
{
    let n = tabs.len();
    let mut i: usize = 0;
    while i < n
        invariant
            i <= n,
            n == tabs@.len(),
            forall|k: int| 0 <= k < i ==> !claims_dir((#[trigger] tabs@[k])@, dir@),
        decreases n - i,
    {
        let hit = match &tabs[i].args {
            Payload::Structured(a) => {
                if str_eq(a.group.as_str(), "_repo") {
                    let derived = get_repo_name(a.name.as_str());
                    str_eq(derived.as_str(), dir)
                } else {
                    false
                }
            },
            Payload::Opaque(_) => false,
        };
        if hit {
            return true;
        }
        i = i + 1;
    }
    false
}

/// The structured entries of one group, in table order.
pub fn filter_by_group(tabs: &Vec<Item>, group: &str) -> (r: Vec<Item>)
    ensures
        r@ == tabs@.filter(|i: Item| in_group(i@, group@)),
{
    let n = tabs.len();
    let mut out: Vec<Item> = Vec::new();
    proof {
        let pred = |i: Item| in_group(i@, group@);
        reveal(Seq::filter);
        assert(tabs@.subrange(0, 0).filter(pred) =~= Seq::<Item>::empty());
    }
    let mut i: usize = 0;
    while i < n
        invariant
            i <= n,
            n == tabs@.len(),
            out@ == tabs@.subrange(0, i as int).filter(|i: Item| in_group(i@, group@)),
        decreases n - i,
    {
        let keep = match &tabs[i].args {
            Payload::Structured(a) => str_eq(a.group.as_str(), group),
            Payload::Opaque(_) => false,
        };
        if keep {
            out.push(tabs[i].clone());
        }
        proof {
            let pred = |i: Item| in_group(i@, group@);
            assert(pred(tabs@[i as int]) == keep);
            tabs@.subrange(0, i as int).lemma_filter_push(tabs@[i as int], pred);
            assert(tabs@.subrange(0, i as int).push(tabs@[i as int]) =~= tabs@.subrange(0, i + 1));
        }
        i = i + 1;
    }
    proof {
        assert(tabs@.subrange(0, n as int) =~= tabs@);
    }
    out
}

/// The registry entries of the table.
pub fn list(tabs: &Vec<Item>) -> (r: Vec<Item>)
    ensures
        r@ == tabs@.filter(|i: Item| in_group(i@, repo_tag())),
{
    let r = filter_by_group(tabs, "_repo");
    proof {
        crate::strutil::lemma_filter_congruence(
            tabs@,
            |i: Item| in_group(i@, "_repo"@),
            |i: Item| in_group(i@, repo_tag()),
        );
    }
    r
}

/// The task entries grouped under one repository name.
pub fn list_tasks(tabs: &Vec<Item>, name: &str) -> (r: Vec<Item>)
    ensures
        r@ == tabs@.filter(|i: Item| in_group(i@, name@)),
{
    filter_by_group(tabs, name)
}

/// Scoped removal: keeps exactly the entries not owned by `repo` — every
/// opaque entry, and every structured entry that is neither the registry
/// entry for `repo` nor grouped under it — in their table order.
pub fn rm_by_repo(tabs: &Vec<Item>, repo: &str) -> (r: Vec<Item>)
    ensures
        r@ == tabs@.filter(keep_item(repo@)),
{
    let n = tabs.len();
    let mut out: Vec<Item> = Vec::new();
    proof {
        let pred = keep_item(repo@);
        reveal(Seq::filter);
        assert(tabs@.subrange(0, 0).filter(pred) =~= Seq::<Item>::empty());
    }
    let mut i: usize = 0;
    while i < n
        invariant
            i <= n,
            n == tabs@.len(),
            out@ == tabs@.subrange(0, i as int).filter(keep_item(repo@)),
        decreases n - i,
    {
        let keep = match &tabs[i].args {
            Payload::Structured(a) => !((str_eq(a.group.as_str(), "_repo") && str_eq(
                a.name.as_str(),
                repo,
            )) || str_eq(a.group.as_str(), repo)),
            Payload::Opaque(_) => true,
        };
        if keep {
            out.push(tabs[i].clone());
        }
        proof {
            let pred = keep_item(repo@);
            assert(pred(tabs@[i as int]) == keep);
            tabs@.subrange(0, i as int).lemma_filter_push(tabs@[i as int], pred);
            assert(tabs@.subrange(0, i as int).push(tabs@[i as int]) =~= tabs@.subrange(0, i + 1));
        }
        i = i + 1;
    }
    proof {
        assert(tabs@.subrange(0, n as int) =~= tabs@);
    }
    out
}

/// Removal by registry index: resolves the index against the registry
/// view, then removes that repository's whole group. Fails exactly when
/// the index is out of range of the registry view.
pub fn rm_by_index(tabs: &Vec<Item>, index: usize) -> (r: Result<Vec<Item>, Error>)
    ensures
        ({
            let regs = tabs@.filter(|i: Item| in_group(i@, repo_tag()));
            match r {
                Ok(v) => index < regs.len() && v@ == tabs@.filter(
                    keep_item(reg_name(regs[index as int])),
                ),
                Err(e) => e == Error::NotFound && index >= regs.len(),
            }
        }),
{
    let regs = list(tabs);
    if index >= regs.len() {
        return Err(Error::NotFound);
    }
    proof {
        Seq::lemma_filter_pred(tabs@, |i: Item| in_group(i@, repo_tag()), index as int);
    }
    let t = &regs[index];
    match &t.args {
        Payload::Structured(a) => Ok(rm_by_repo(tabs, a.name.as_str())),
        Payload::Opaque(_) => {
            proof {
                assert(false);
            }
            Err(Error::NotFound)
        },
    }
}

/// The names of on-disk repository directories that no registry entry
/// claims — none has that directory as its source's derived name — in
/// their given order: what a cleanup removes.
pub fn clean_files(tabs: &Vec<Item>, fs_repos: &Vec<String>) -> (r: Vec<String>)
    ensures
        r@ == fs_repos@.filter(
            |d: String|
                !(exists|k: int| 0 <= k < tabs@.len() && claims_dir((#[trigger] tabs@[k])@, d@)),
        ),
{
    let n = fs_repos.len();
    let mut out: Vec<String> = Vec::new();
    proof {
        let pred = |d: String|
            !(exists|k: int| 0 <= k < tabs@.len() && claims_dir((#[trigger] tabs@[k])@, d@));
        reveal(Seq::filter);
        assert(fs_repos@.subrange(0, 0).filter(pred) =~= Seq::<String>::empty());
    }
    let mut i: usize = 0;
    while i < n
        invariant
            i <= n,
            n == fs_repos@.len(),
            out@ == fs_repos@.subrange(0, i as int).filter(
                |d: String|
                    !(exists|k: int|
                        0 <= k < tabs@.len() && claims_dir((#[trigger] tabs@[k])@, d@)),
            ),
        decreases n - i,
    {
        let orphan = !dir_claimed(tabs, fs_repos[i].as_str());
        if orphan {
            out.push(fs_repos[i].clone());
        }
        proof {
            let pred = |d: String|
                !(exists|k: int|
                    0 <= k < tabs@.len() && claims_dir((#[trigger] tabs@[k])@, d@));
            assert(pred(fs_repos@[i as int]) == orphan);
            fs_repos@.subrange(0, i as int).lemma_filter_push(fs_repos@[i as int], pred);
            assert(fs_repos@.subrange(0, i as int).push(fs_repos@[i as int]) =~= fs_repos@.subrange(
                0,
                i + 1,
            ));
        }
        i = i + 1;
    }
    proof {
        assert(fs_repos@.subrange(0, n as int) =~= fs_repos@);
    }
    out
}

/// The refresh command a registry entry carries: for a cloned repository,
/// fetch and hard-reset the branch and re-invoke this program's resync;
/// for a local source, do nothing.
pub open spec fn registry_cmd_v(
    repo: Seq<char>,
    branch: Seq<char>,
    abs_path: Seq<char>,
    exe_path: Seq<char>,
) -> Seq<char> {
    if is_git_source(repo) {
        "cd "@ + abs_path + " && git fetch origin "@ + branch + " && git reset --hard origin/"@
            + branch + " && "@ + exe_path + " repo-readd"@
    } else {
        ":"@
    }
}

/// The registry entry written for a repository.
pub open spec fn registry_item_v(
    repo: Seq<char>,
    schedule: Seq<char>,
    whitelist: Seq<char>,
    branch: Seq<char>,
    abs_path: Seq<char>,
    exe_path: Seq<char>,
) -> ItemV {
    ItemV {
        schedule: schedule,
        cmd: registry_cmd_v(repo, branch, abs_path, exe_path),
        args: PayloadV::Structured(
            ItemArgsV {
                group: repo_tag(),
                name: repo,
                repo_args: Some(RepoArgsV { whitelist: whitelist, branch: branch }),
            },
        ),
    }
}

/// The command a task entry runs: source the environment file, then start
/// the file with its launcher — empty when the file names its own
/// interpreter.
pub open spec fn task_cmd_v(env_path: Seq<char>, abs_path: Seq<char>, f: FoundTaskV) -> Seq<char> {
    ". "@ + env_path + " && "@ + (if f.shebang {
        Seq::<char>::empty()
    } else {
        launcher_of(f.path)
    }) + " "@ + abs_path + "/"@ + f.path
}

/// The task entry written for one discovered file.
pub open spec fn task_item_v(
    repo: Seq<char>,
    env_path: Seq<char>,
    abs_path: Seq<char>,
    f: FoundTaskV,
) -> ItemV {
    ItemV {
        schedule: f.cron,
        cmd: task_cmd_v(env_path, abs_path, f),
        args: PayloadV::Structured(ItemArgsV { group: repo, name: f.path, repo_args: None }),
    }
}

/// The task entries written for a discovery result, in its order.
pub open spec fn task_items_v(
    repo: Seq<char>,
    env_path: Seq<char>,
    abs_path: Seq<char>,
    fs: Seq<FoundTaskV>,
) -> Seq<ItemV> {
    fs.map_values(|f: FoundTaskV| task_item_v(repo, env_path, abs_path, f))
}

/// Registers a repository: appends its registry entry and one task entry
/// per discovered file. Fails with a conflict, leaving the table
/// unchanged, exactly when some registry entry already claims the
/// source's derived name — the directory the working trees share — so
/// two sources ending in the same segment cannot silently share a clone.
///
/// The caller has already cloned or created the working tree and run
/// discovery over it; `abs_path` is the tree's absolute path, `exe_path`
/// this program's own invocation for the self-refresh command, and
/// `env_path` the environment file sourced before each task.
pub fn add(
    tabs: &mut Vec<Item>,
    repo: &str,
    schedule: &str,
    whitelist: &str,
    branch: &str,
    abs_path: &str,
    exe_path: &str,
    env_path: &str,
    files: &Vec<FoundTask>,
) -> (r: Result<(), Error>)
    ensures
        ({
            let had = exists|k: int|
                0 <= k < old(tabs)@.len() && claims_dir(
                    (#[trigger] old(tabs)@[k])@,
                    repo_name_of(repo@),
                );
            match r {
                Err(e) => e == Error::Conflict && had && final(tabs)@ == old(tabs)@,
                Ok(u) => !had && views(final(tabs)@) == views(old(tabs)@) + seq![
                    registry_item_v(
                        repo@,
                        schedule@,
                        whitelist@,
                        branch@,
                        abs_path@,
                        exe_path@,
                    ),
                ] + task_items_v(repo@, env_path@, abs_path@, task_views(files@)),
            }
        }),
{
    let derived = get_repo_name(repo);
    if dir_claimed(tabs, derived.as_str()) {
        return Err(Error::Conflict);
    }
    let cmd = if is_git_repo(repo) {
        let mut s = String::from_str("cd ");
        s.append(abs_path);
        s.append(" && git fetch origin ");
        s.append(branch);
        s.append(" && git reset --hard origin/");
        s.append(branch);
        s.append(" && ");
        s.append(exe_path);
        s.append(" repo-readd");
        proof {
            assert(s@ =~= registry_cmd_v(repo@, branch@, abs_path@, exe_path@));
        }
        s
    } else {
        String::from_str(":")
    };
    let reg = Item {
        schedule: schedule.to_owned(),
        cmd,
        args: Payload::Structured(
            ItemArgs {
                group: String::from_str("_repo"),
                name: repo.to_owned(),
                repo_args: Some(
                    RepoArgs { whitelist: whitelist.to_owned(), branch: branch.to_owned() },
                ),
            },
        ),
    };
    let ghost base = views(old(tabs)@) + seq![
        registry_item_v(repo@, schedule@, whitelist@, branch@, abs_path@, exe_path@),
    ];
    tabs.push(reg);
    proof {
        assert(views(tabs@) =~= base);
        assert(task_views(files@.subrange(0, 0)) =~= Seq::<FoundTaskV>::empty());
        assert(base + task_items_v(repo@, env_path@, abs_path@, task_views(files@.subrange(0, 0)))
            =~= base);
    }
    let n = files.len();
    let mut i: usize = 0;
    while i < n
        invariant
            i <= n,
            n == files@.len(),
            views(tabs@) == base + task_items_v(
                repo@,
                env_path@,
                abs_path@,
                task_views(files@.subrange(0, i as int)),
            ),
        decreases n - i,
    {
        let f = &files[i];
        let launcher = if f.shebang {
            String::new()
        } else {
            gen_launcher(f.path.as_str())
        };
        let mut cmd = String::from_str(". ");
        cmd.append(env_path);
        cmd.append(" && ");
        cmd.append(launcher.as_str());
        cmd.append(" ");
        cmd.append(abs_path);
        cmd.append("/");
        cmd.append(f.path.as_str());
        proof {
            assert(cmd@ =~= task_cmd_v(env_path@, abs_path@, files@[i as int]@));
        }
        let item = Item {
            schedule: f.cron.clone(),
            cmd,
            args: Payload::Structured(
                ItemArgs { group: repo.to_owned(), name: f.path.clone(), repo_args: None },
            ),
        };
        let ghost before = views(tabs@);
        tabs.push(item);
        proof {
            assert(views(tabs@) =~= before.push(task_item_v(repo@, env_path@, abs_path@, files@[i as int]@)));
            assert(task_views(files@.subrange(0, i + 1)) =~= task_views(
                files@.subrange(0, i as int),
            ).push(files@[i as int]@));
            assert(task_items_v(
                repo@,
                env_path@,
                abs_path@,
                task_views(files@.subrange(0, i + 1)),
            ) =~= task_items_v(
                repo@,
                env_path@,
                abs_path@,
                task_views(files@.subrange(0, i as int)),
            ).push(task_item_v(repo@, env_path@, abs_path@, files@[i as int]@)));
            assert(views(tabs@) =~= base + task_items_v(
                repo@,
                env_path@,
                abs_path@,
                task_views(files@.subrange(0, i + 1)),
            ));
        }
        i = i + 1;
    }
    proof {
        assert(files@.subrange(0, n as int) =~= files@);
    }
    Ok(())
}

/// Everything a resync needs for one registered repository: the metadata
/// its registry entry stores, the refreshed tree's absolute path, and the
/// fresh discovery result over that tree.
pub struct SyncInput {
    pub repo: String,
    pub schedule: String,
    pub whitelist: String,
    pub branch: String,
    pub abs_path: String,
    pub files: Vec<FoundTask>,
}

/// Mathematical image of [`SyncInput`].
#[verifier::ext_equal]
pub struct SyncInputV {
    pub repo: Seq<char>,
    pub schedule: Seq<char>,
    pub whitelist: Seq<char>,
    pub branch: Seq<char>,
    pub abs_path: Seq<char>,
    pub files: Seq<FoundTaskV>,
}

impl View for SyncInput {
    type V = SyncInputV;

    open spec fn view(&self) -> SyncInputV {
        SyncInputV {
            repo: self.repo@,
            schedule: self.schedule@,
            whitelist: self.whitelist@,
            branch: self.branch@,
            abs_path: self.abs_path@,
            files: task_views(self.files@),
        }
    }
}

/// The views of a sequence of sync inputs.
pub open spec fn sync_views(s: Seq<SyncInput>) -> Seq<SyncInputV> {
    s.map_values(|x: SyncInput| x@)
}

/// The whole entry group one resynced repository contributes.
pub open spec fn group_items_v(inp: SyncInputV, env_path: Seq<char>, exe_path: Seq<char>) -> Seq<
    ItemV,
> {
    seq![
        registry_item_v(inp.repo, inp.schedule, inp.whitelist, inp.branch, inp.abs_path, exe_path),
    ] + task_items_v(inp.repo, env_path, inp.abs_path, inp.files)
}

/// One resync step: the repository's old group removed, its fresh group
/// appended.
pub open spec fn resync_step(
    t: Seq<ItemV>,
    inp: SyncInputV,
    env_path: Seq<char>,
    exe_path: Seq<char>,
) -> Seq<ItemV> {
    t.filter(not_owned(inp.repo)) + group_items_v(inp, env_path, exe_path)
}

/// A whole resync: every given repository stepped in order.
pub open spec fn resync_all(
    t: Seq<ItemV>,
    ins: Seq<SyncInputV>,
    env_path: Seq<char>,
    exe_path: Seq<char>,
) -> Seq<ItemV>
    decreases ins.len(),
{
    if ins.len() == 0 {
        t
    } else {
        resync_all(resync_step(t, ins[0], env_path, exe_path), ins.drop_first(), env_path, exe_path)
    }
}

/// A resync grows one repository at a time.
proof fn lemma_resync_all_snoc(
    t: Seq<ItemV>,
    ins: Seq<SyncInputV>,
    inp: SyncInputV,
    e: Seq<char>,
    x: Seq<char>,
)
    ensures
        resync_all(t, ins.push(inp), e, x) == resync_step(resync_all(t, ins, e, x), inp, e, x),
    decreases ins.len(),
{
    if ins.len() == 0 {
        assert(ins.push(inp)[0] == inp);
        assert(ins.push(inp).drop_first() =~= Seq::<SyncInputV>::empty());
        assert(resync_all(resync_step(t, inp, e, x), Seq::<SyncInputV>::empty(), e, x)
            == resync_step(t, inp, e, x));
        assert(resync_all(t, ins, e, x) == t);
    } else {
        assert(ins.push(inp)[0] == ins[0]);
        assert(ins.push(inp).drop_first() =~= ins.drop_first().push(inp));
        lemma_resync_all_snoc(resync_step(t, ins[0], e, x), ins.drop_first(), inp, e, x);
        assert(resync_all(t, ins, e, x) == resync_all(
            resync_step(t, ins[0], e, x),
            ins.drop_first(),
            e,
            x,
        ));
    }
}

/// A scoped removal factors through views.
proof fn lemma_views_keep(s: Seq<Item>, repo: Seq<char>)
    ensures
        views(s.filter(keep_item(repo))) == views(s).filter(not_owned(repo)),
    decreases s.len(),
{
    reveal(Seq::filter);
    let q = keep_item(repo);
    let p = not_owned(repo);
    if s.len() == 0 {
        assert(views(s.filter(q)) =~= views(s).filter(p));
    } else {
        lemma_views_keep(s.drop_last(), repo);
        assert(views(s).drop_last() =~= views(s.drop_last()));
        assert(views(s).last() == s.last()@);
        assert(q(s.last()) == p(s.last()@));
        if q(s.last()) {
            assert(views(s.drop_last().filter(q).push(s.last())) =~= views(
                s.drop_last().filter(q),
            ).push(s.last()@));
        }
        assert(views(s.filter(q)) =~= views(s).filter(p));
    }
}

/// A structured entry that is a registry entry only under one of the
/// given inputs' sources.
pub open spec fn registry_name_ok(iv: ItemV, ins: Seq<SyncInputV>) -> bool {
    match iv.args {
        PayloadV::Structured(a) => a.group == repo_tag() ==> exists|j: int|
            0 <= j < ins.len() && (#[trigger] ins[j]).repo == a.name,
        PayloadV::Opaque(_) => true,
    }
}

/// Resyncs every registered repository from its fresh input, in the given
/// order, and returns the reconciled table: unrelated entries keep their
/// order at the front, each repository's rebuilt group follows.
///
/// The preconditions are the registry's own shape: the inputs are read
/// off the table's registry entries, whose sources have pairwise-distinct
/// derived names — registration refuses a second claim on a directory —
/// and none of which is the reserved tag.
pub fn readd_all(tabs: Vec<Item>, ins: &Vec<SyncInput>, env_path: &str, exe_path: &str) -> (r: Vec<
    Item,
>)
    requires
        forall|a: int, b: int|
            0 <= a < b < ins@.len() ==> repo_name_of((#[trigger] ins@[a])@.repo) != repo_name_of(
                (#[trigger] ins@[b])@.repo,
            ),
        forall|j: int| 0 <= j < ins@.len() ==> (#[trigger] ins@[j])@.repo != repo_tag(),
        forall|k: int|
            0 <= k < tabs@.len() ==> registry_name_ok((#[trigger] tabs@[k])@, sync_views(ins@)),
    ensures
        views(r@) == resync_all(views(tabs@), sync_views(ins@), env_path@, exe_path@),
{
    let ghost t0 = views(tabs@);
    let mut cur = tabs;
    let n = ins.len();
    let mut i: usize = 0;
    proof {
        assert(sync_views(ins@).subrange(0, 0) =~= Seq::<SyncInputV>::empty());
    }
    while i < n
        invariant
            i <= n,
            n == ins@.len(),
            views(cur@) == resync_all(t0, sync_views(ins@).subrange(0, i as int), env_path@, exe_path@),
            forall|a: int, b: int|
                0 <= a < b < ins@.len() ==> repo_name_of((#[trigger] ins@[a])@.repo)
                    != repo_name_of((#[trigger] ins@[b])@.repo),
            forall|j: int| 0 <= j < ins@.len() ==> (#[trigger] ins@[j])@.repo != repo_tag(),
            forall|k: int|
                0 <= k < views(cur@).len() ==> registry_name_ok(
                    #[trigger] views(cur@)[k],
                    sync_views(ins@),
                ),
        decreases n - i,
    {
        let inp = &ins[i];
        let ghost prev = views(cur@);
        let removed = rm_by_repo(&cur, inp.repo.as_str());
        proof {
            lemma_views_keep(cur@, inp.repo@);
        }
        cur = removed;
        let ghost mid = views(cur@);
        proof {
            let insv = sync_views(ins@);
            assert(mid == prev.filter(not_owned(inp.repo@)));
            assert(insv[i as int] == inp@);
            // the kept entries carry only the given sources' registry names
            assert forall|k: int| 0 <= k < mid.len() implies registry_name_ok(
                #[trigger] mid[k],
                insv,
            ) by {
                let elem = mid[k];
                assert(prev.filter(not_owned(inp.repo@))[k] == elem);
                assert(prev.filter(not_owned(inp.repo@)).contains(elem));
                Seq::lemma_filter_contains_rev(prev, not_owned(inp.repo@), elem);
                let j = choose|j: int| 0 <= j < prev.len() && prev[j] == elem;
                assert(registry_name_ok(prev[j], insv));
            }
            // so none of them still claims the refreshed repository's directory
            assert forall|k: int| 0 <= k < mid.len() implies !claims_dir(
                #[trigger] mid[k],
                repo_name_of(inp.repo@),
            ) by {
                let iv = mid[k];
                Seq::lemma_filter_pred(prev, not_owned(inp.repo@), k);
                assert(registry_name_ok(iv, insv));
                if claims_dir(iv, repo_name_of(inp.repo@)) {
                    match iv.args {
                        PayloadV::Structured(a) => {
                            let j = choose|j: int|
                                0 <= j < insv.len() && (#[trigger] insv[j]).repo == a.name;
                            assert(insv[j] == ins@[j]@);
                            if j == i as int {
                                assert(a.name == inp.repo@);
                                assert(owned_by(iv, inp.repo@));
                            } else {
                                assert(repo_name_of(ins@[j]@.repo) != repo_name_of(
                                    ins@[i as int]@.repo,
                                ));
                                assert(repo_name_of(a.name) == repo_name_of(inp.repo@));
                            }
                        },
                        PayloadV::Opaque(_) => {},
                    }
                }
            }
        }
        let ghost pre_items = cur@;
        let res = crate::repo::add(
            &mut cur,
            inp.repo.as_str(),
            inp.schedule.as_str(),
            inp.whitelist.as_str(),
            inp.branch.as_str(),
            inp.abs_path.as_str(),
            exe_path,
            env_path,
            &inp.files,
        );
        match res {
            Ok(u) => {},
            Err(e) => {
                proof {
                    let k = choose|k: int|
                        0 <= k < pre_items.len() && claims_dir(
                            (#[trigger] pre_items[k])@,
                            repo_name_of(inp.repo@),
                        );
                    assert(mid[k] == pre_items[k]@);
                    assert(false);
                }
            },
        }
        proof {
            let insv = sync_views(ins@);
            assert(insv[i as int] == inp@);
            assert(inp@.repo == inp.repo@);
            assert(views(cur@) =~= resync_step(
                resync_all(t0, insv.subrange(0, i as int), env_path@, exe_path@),
                inp@,
                env_path@,
                exe_path@,
            ));
            lemma_resync_all_snoc(
                t0,
                insv.subrange(0, i as int),
                inp@,
                env_path@,
                exe_path@,
            );
            assert(insv.subrange(0, i as int).push(inp@) =~= insv.subrange(0, i + 1));
            // the rebuilt group keeps the registry-name bookkeeping intact
            let reg = registry_item_v(
                inp.repo@,
                inp.schedule@,
                inp.whitelist@,
                inp.branch@,
                inp.abs_path@,
                exe_path@,
            );
            let tasks = task_items_v(inp.repo@, env_path@, inp.abs_path@, task_views(inp.files@));
            assert(views(cur@) == mid + seq![reg] + tasks);
            assert forall|k: int| 0 <= k < views(cur@).len() implies registry_name_ok(
                #[trigger] views(cur@)[k],
                insv,
            ) by {
                if k < mid.len() {
                    assert(views(cur@)[k] == mid[k]);
                    assert(registry_name_ok(mid[k], insv));
                } else if k == mid.len() {
                    assert(views(cur@)[k] == reg);
                    assert(insv[i as int].repo == inp.repo@);
                } else {
                    let t = k - mid.len() - 1;
                    assert(views(cur@)[k] == tasks[t]);
                    assert(tasks[t] == task_item_v(
                        inp.repo@,
                        env_path@,
                        inp.abs_path@,
                        task_views(inp.files@)[t],
                    ));
                    assert(ins@[i as int]@.repo != repo_tag());
                }
            }
        }
        i = i + 1;
    }
    proof {
        assert(sync_views(ins@).subrange(0, n as int) =~= sync_views(ins@));
    }
    cur
}

/// An entry owned by one of the given repositories.
pub open spec fn owned_by_some(iv: ItemV, ins: Seq<SyncInputV>) -> bool {
    exists|k: int| 0 <= k < ins.len() && owned_by(iv, (#[trigger] ins[k]).repo)
}

/// The entries a whole resync keeps untouched: owned by none of the
/// inputs.
pub open spec fn not_owned_any(ins: Seq<SyncInputV>) -> spec_fn(ItemV) -> bool {
    |iv: ItemV| !owned_by_some(iv, ins)
}

/// The groups a resync appends, concatenated in order.
pub open spec fn groups_cat(ins: Seq<SyncInputV>, e: Seq<char>, x: Seq<char>) -> Seq<ItemV>
    decreases ins.len(),
{
    if ins.len() == 0 {
        Seq::empty()
    } else {
        group_items_v(ins[0], e, x) + groups_cat(ins.drop_first(), e, x)
    }
}

/// Ownership of a rebuilt group: each of its entries belongs to its own
/// repository, and to no other that is not the reserved tag.
proof fn lemma_group_owned(inp: SyncInputV, e: Seq<char>, x: Seq<char>)
    requires
        inp.repo != repo_tag(),
    ensures
        forall|j: int|
            0 <= j < group_items_v(inp, e, x).len() ==> owned_by(
                #[trigger] group_items_v(inp, e, x)[j],
                inp.repo,
            ),
        forall|j: int, r: Seq<char>|
            0 <= j < group_items_v(inp, e, x).len() && r != inp.repo && r != repo_tag() ==> !(
            #[trigger] owned_by(group_items_v(inp, e, x)[j], r)),
{
    let g = group_items_v(inp, e, x);
    assert(g[0] == registry_item_v(inp.repo, inp.schedule, inp.whitelist, inp.branch, inp.abs_path, x));
    assert(forall|j: int|
        0 < j < g.len() ==> #[trigger] g[j] == task_item_v(inp.repo, e, inp.abs_path, inp.files[j - 1]));
}

/// Every entry of the concatenated groups is owned by one of the inputs.
proof fn lemma_groups_cat_owned(ins: Seq<SyncInputV>, e: Seq<char>, x: Seq<char>)
    requires
        forall|k: int| 0 <= k < ins.len() ==> (#[trigger] ins[k]).repo != repo_tag(),
    ensures
        forall|j: int|
            0 <= j < groups_cat(ins, e, x).len() ==> owned_by_some(
                #[trigger] groups_cat(ins, e, x)[j],
                ins,
            ),
    decreases ins.len(),
{
    if ins.len() > 0 {
        let g0 = group_items_v(ins[0], e, x);
        let rest = ins.drop_first();
        lemma_group_owned(ins[0], e, x);
        assert(forall|k: int| 0 <= k < rest.len() ==> rest[k] == ins[k + 1]);
        lemma_groups_cat_owned(rest, e, x);
        assert forall|j: int| 0 <= j < groups_cat(ins, e, x).len() implies owned_by_some(
            #[trigger] groups_cat(ins, e, x)[j],
            ins,
        ) by {
            if j < g0.len() {
                assert(groups_cat(ins, e, x)[j] == g0[j]);
                assert(owned_by(g0[j], ins[0].repo));
            } else {
                let jr = j - g0.len();
                assert(groups_cat(ins, e, x)[j] == groups_cat(rest, e, x)[jr]);
                assert(owned_by_some(groups_cat(rest, e, x)[jr], rest));
                let k = choose|k: int|
                    0 <= k < rest.len() && owned_by(groups_cat(rest, e, x)[jr], (#[trigger] rest[k]).repo);
                assert(ins[k + 1] == rest[k]);
                assert(owned_by(groups_cat(ins, e, x)[j], ins[k + 1].repo));
            }
        }
    }
}

/// The closed form of a resync over distinct repositories: the entries no
/// given repository owns, in their old order, then the rebuilt groups in
/// input order.
proof fn lemma_resync_shape(t: Seq<ItemV>, ins: Seq<SyncInputV>, e: Seq<char>, x: Seq<char>)
    requires
        forall|a: int, b: int|
            0 <= a < b < ins.len() ==> (#[trigger] ins[a]).repo != (#[trigger] ins[b]).repo,
        forall|k: int| 0 <= k < ins.len() ==> (#[trigger] ins[k]).repo != repo_tag(),
    ensures
        resync_all(t, ins, e, x) == t.filter(|iv: ItemV| !owned_by_some(iv, ins)) + groups_cat(
            ins,
            e,
            x,
        ),
    decreases ins.len(),
{
    if ins.len() == 0 {
        assert forall|j: int| 0 <= j < t.len() implies (not_owned_any(ins))(#[trigger] t[j]) by {
            if owned_by_some(t[j], ins) {
                let k = choose|k: int| 0 <= k < ins.len() && owned_by(t[j], (#[trigger] ins[k]).repo);
            }
        }
        crate::strutil::lemma_filter_all_true(t, not_owned_any(ins));
        assert(t + groups_cat(ins, e, x) =~= t);
    } else {
        let i0 = ins[0];
        let rest = ins.drop_first();
        assert(forall|k: int| 0 <= k < rest.len() ==> rest[k] == ins[k + 1]);
        let q = not_owned_any(rest);
        let g0 = group_items_v(i0, e, x);
        let t1 = resync_step(t, i0, e, x);
        lemma_resync_shape(t1, rest, e, x);
        Seq::filter_distributes_over_add(t.filter(not_owned(i0.repo)), g0, q);
        // the fresh group survives the later removals
        lemma_group_owned(i0, e, x);
        assert forall|j: int| 0 <= j < g0.len() implies q(#[trigger] g0[j]) by {
            if owned_by_some(g0[j], rest) {
                let k = choose|k: int|
                    0 <= k < rest.len() && owned_by(g0[j], (#[trigger] rest[k]).repo);
                assert(rest[k] == ins[k + 1]);
                assert(ins[k + 1].repo != i0.repo);
                assert(ins[k + 1].repo != repo_tag());
                assert(!owned_by(g0[j], rest[k].repo));
            }
        }
        crate::strutil::lemma_filter_all_true(g0, q);
        lemma_filter_owned_split(t, ins);
        assert(resync_all(t, ins, e, x) == resync_all(t1, rest, e, x));
        assert(t1.filter(q) == t.filter(not_owned_any(ins)) + g0);
        assert((t.filter(not_owned_any(ins)) + g0) + groups_cat(rest, e, x) =~= t.filter(
            not_owned_any(ins),
        ) + (g0 + groups_cat(rest, e, x)));
        assert(g0 + groups_cat(rest, e, x) == groups_cat(ins, e, x));
    }
}

/// Removing one repository's entries, then everything the remaining
/// inputs own, removes exactly what some input owns.
proof fn lemma_filter_owned_split(t: Seq<ItemV>, ins: Seq<SyncInputV>)
    requires
        ins.len() > 0,
    ensures
        t.filter(not_owned(ins[0].repo)).filter(not_owned_any(ins.drop_first())) == t.filter(
            not_owned_any(ins),
        ),
    decreases t.len(),
{
    reveal(Seq::filter);
    let p = not_owned(ins[0].repo);
    let q = not_owned_any(ins.drop_first());
    let w = not_owned_any(ins);
    let rest = ins.drop_first();
    assert(forall|k: int| 0 <= k < rest.len() ==> rest[k] == ins[k + 1]);
    if t.len() == 0 {
        assert(t.filter(p).filter(q) =~= t.filter(w));
    } else {
        lemma_filter_owned_split(t.drop_last(), ins);
        let dl = t.drop_last();
        let last = t.last();
        assert((p(last) && q(last)) == w(last)) by {
            if owned_by_some(last, ins) {
                let k = choose|k: int|
                    0 <= k < ins.len() && owned_by(last, (#[trigger] ins[k]).repo);
                if k > 0 {
                    assert(rest[k - 1] == ins[k]);
                    assert(owned_by_some(last, rest));
                }
            } else {
                assert(forall|k: int|
                    0 <= k < ins.len() ==> !owned_by(last, (#[trigger] ins[k]).repo));
                assert(!owned_by(last, ins[0].repo));
                if owned_by_some(last, rest) {
                    let k = choose|k: int|
                        0 <= k < rest.len() && owned_by(last, (#[trigger] rest[k]).repo);
                    assert(ins[k + 1] == rest[k]);
                }
            }
        }
        if p(last) {
            assert(t.filter(p) == dl.filter(p).push(last));
            dl.filter(p).lemma_filter_push(last, q);
        } else {
            assert(t.filter(p) == dl.filter(p));
        }
    }
}

/// Idempotent resync: running a whole resync twice with the same inputs —
/// the filesystem unchanged between the runs — yields the same table as
/// running it once. The inputs must name distinct repositories, none of
/// them the reserved tag.
pub proof fn lemma_resync_idempotent(
    t: Seq<ItemV>,
    ins: Seq<SyncInputV>,
    e: Seq<char>,
    x: Seq<char>,
)
    requires
        forall|a: int, b: int|
            0 <= a < b < ins.len() ==> (#[trigger] ins[a]).repo != (#[trigger] ins[b]).repo,
        forall|k: int| 0 <= k < ins.len() ==> (#[trigger] ins[k]).repo != repo_tag(),
    ensures
        resync_all(resync_all(t, ins, e, x), ins, e, x) == resync_all(t, ins, e, x),
{
    let pall = not_owned_any(ins);
    let clean = t.filter(pall);
    let g = groups_cat(ins, e, x);
    lemma_resync_shape(t, ins, e, x);
    lemma_resync_shape(clean + g, ins, e, x);
    Seq::filter_distributes_over_add(clean, g, pall);
    assert forall|j: int| 0 <= j < clean.len() implies pall(#[trigger] clean[j]) by {
        Seq::lemma_filter_pred(t, pall, j);
    }
    crate::strutil::lemma_filter_all_true(clean, pall);
    lemma_groups_cat_owned(ins, e, x);
    assert(forall|j: int| 0 <= j < g.len() ==> !pall(#[trigger] g[j]));
    crate::strutil::lemma_filter_none(g, pall);
    assert((clean + Seq::<ItemV>::empty()) + g =~= clean + g);
}

/// The defaults the front ends use when a registration names no
/// whitelist or branch.
pub fn default_whitelist() -> (r: String)
    ensures
        r@ == ".*\\.ts$"@,
{
    String::from_str(".*\\.ts$")
}

/// The branch synced when a registration names none.
pub fn default_branch() -> (r: String)
    ensures
        r@ == "master"@,
{
    String::from_str("master")
}

} // verus!

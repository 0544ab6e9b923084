//! The tree walker: given an already-enumerated directory tree, it
//! applies the filtering policy (hidden names, ignore-rule verdicts),
//! builds one fully resolved path per qualifying file, and submits one
//! job per such file to the pool, in traversal order. Directories are
//! descended synchronously; only the per-file search jobs are handed to
//! the pool.
use vstd::prelude::*;
use vstd::string::StrSliceExecFns;
use vstd::string::StringExecFns;

use crate::Config;
use crate::thread_pool::Job;
use crate::thread_pool::ThreadPool;

verus! {

broadcast use vstd::seq::group_seq_axioms, vstd::std_specs::vec::group_vec_axioms;

/// One directory entry, with the subtree below it if it is a directory.
/// `ignored` records the ignore-rule evaluator's verdict for the entry;
/// it is consulted only while the configuration does not override it.
pub struct FsTree {
    /// The entry's bare name, without any directory prefix.
    pub name: String,
    /// Whether the ignore-rule evaluator rejects this entry.
    pub ignored: bool,
    /// What the entry is.
    pub node: FsNode,
}

/// A regular file, or a directory with its direct entries.
pub enum FsNode {
    /// A regular file.
    File,
    /// A directory and its direct entries, in enumeration order.
    Dir(Vec<FsTree>),
}

/// Whether the walk skips an entry outright: either the ignore-rule
/// evaluator rejected it and the configuration does not override that,
/// or its name starts with the hidden marker and hidden entries are not
/// searched. The override affects only the ignore rules, never the
/// hidden-name policy.
pub open spec fn spec_skip_entry(cfg: Config, name: Seq<char>, ignored: bool) -> bool {
    ||| (ignored && !cfg.force_git)
    ||| (name.len() > 0 && name[0] == '.' && !cfg.hidden_files)
}

/// The path of an entry named `name` inside the directory `dir`.
pub open spec fn child_path(dir: Seq<char>, name: Seq<char>) -> Seq<char> {
    dir + seq!['/'] + name
}

/// The paths of the files below one entry that receive a search job,
/// in traversal order: nothing if the entry is skipped, the file's own
/// path for a file, and the concatenation of its entries' contributions
/// for a directory.
pub open spec fn tree_jobs(t: FsTree, cfg: Config, dir: Seq<char>) -> Seq<Seq<char>>
    decreases t, 0int,
{
    if spec_skip_entry(cfg, t.name@, t.ignored) {
        Seq::empty()
    } else {
        match t.node {
            FsNode::File => seq![child_path(dir, t.name@)],
            FsNode::Dir(entries) => forest_jobs_from(entries@, 0, cfg, child_path(dir, t.name@)),
        }
    }
}

/// The job paths contributed by the entries of one directory, from
/// index `i` on.
pub open spec fn forest_jobs_from(es: Seq<FsTree>, i: int, cfg: Config, dir: Seq<char>) -> Seq<
    Seq<char>,
>
    decreases es, es.len() - i,
{
    if i < 0 || i >= es.len() {
        Seq::empty()
    } else {
        tree_jobs(es[i], cfg, dir) + forest_jobs_from(es, i + 1, cfg, dir)
    }
}

/// The job paths contributed by the entries of one directory.
pub open spec fn forest_jobs(es: Seq<FsTree>, cfg: Config, dir: Seq<char>) -> Seq<Seq<char>> {
    forest_jobs_from(es, 0, cfg, dir)
}

/// Whether `j` is the job the walk submits for the file at `path`: the
/// caller's configuration with the target rebound to that path.
pub open spec fn job_for(j: Job, cfg: Config, path: Seq<char>) -> bool {
    &&& j.config.query@ == cfg.query@
    &&& j.config.file_path@ == path
    &&& j.config.original_path@ == cfg.original_path@
    &&& j.config.ignore_case == cfg.ignore_case
    &&& j.config.hidden_files == cfg.hidden_files
    &&& j.config.force_git == cfg.force_git
    &&& j.config.thread_count == cfg.thread_count
}

/// Whether `new_s` extends `old_s` with exactly one job per path in
/// `paths`, in order.
pub open spec fn extends_with_jobs(
    old_s: Seq<Job>,
    new_s: Seq<Job>,
    cfg: Config,
    paths: Seq<Seq<char>>,
) -> bool {
    &&& new_s.len() == old_s.len() + paths.len()
    &&& forall|k: int| #![trigger new_s[k]] 0 <= k < old_s.len() ==> new_s[k] == old_s[k]
    &&& forall|k: int|
        #![trigger paths[k]]
        0 <= k < paths.len() ==> job_for(new_s[old_s.len() + k], cfg, paths[k])
}

/// Extending with one batch of jobs and then another is extending with
/// their concatenation.
proof fn lemma_extends_concat(
    s0: Seq<Job>,
    s1: Seq<Job>,
    s2: Seq<Job>,
    cfg: Config,
    batch_a: Seq<Seq<char>>,
    batch_b: Seq<Seq<char>>,
)
    requires
        extends_with_jobs(s0, s1, cfg, batch_a),
        extends_with_jobs(s1, s2, cfg, batch_b),
    ensures
        extends_with_jobs(s0, s2, cfg, batch_a + batch_b),
{
    assert forall|k: int| #![trigger s2[k]] 0 <= k < s0.len() implies s2[k] == s0[k] by {
        assert(s1[k] == s0[k]);
        assert(s2[k] == s1[k]);
    }
    assert forall|k: int|
        #![trigger (batch_a + batch_b)[k]]
        0 <= k < (batch_a + batch_b).len() implies job_for(
        s2[s0.len() + k],
        cfg,
        (batch_a + batch_b)[k],
    ) by {
        if k < batch_a.len() {
            assert(job_for(s1[s0.len() + k], cfg, batch_a[k]));
            assert(s2[s0.len() + k] == s1[s0.len() + k]);
            assert((batch_a + batch_b)[k] == batch_a[k]);
        } else {
            assert(job_for(s2[s1.len() + (k - batch_a.len())], cfg, batch_b[k - batch_a.len()]));
            assert((batch_a + batch_b)[k] == batch_b[k - batch_a.len()]);
        }
    }
}

/// Whether the walk skips this entry, as `spec_skip_entry` describes.
fn skip_entry(cfg: &Config, name: &String, ignored: bool) -> (r: bool)
    ensures
        r == spec_skip_entry(*cfg, name@, ignored),
{
    if ignored && !cfg.force_git {
        true
    } else {
        let hidden_name = name.as_str().unicode_len() > 0 && name.as_str().get_char(0) == '.';
        hidden_name && !cfg.hidden_files
    }
}

/// The path of the entry `name` inside the directory `dir`, as
/// `child_path` describes.
fn join_path(dir: &str, name: &str) -> (r: String)
    ensures
        r@ == child_path(dir@, name@),
{
    let mut p = dir.to_owned();
    p.append("/");
    p.append(name);
    proof {
        reveal_strlit("/");
        assert(p@ =~= child_path(dir@, name@));
    }
    p
}

/// Walks one entry: a skipped entry contributes nothing; a file becomes
/// one job whose configuration carries the file's fully resolved path,
/// captured here, synchronously, and never resolved later against an
/// ambient working directory; a directory is descended synchronously.
fn walk_entry(t: &FsTree, cfg: &Config, dir: &String, pool: &mut ThreadPool)
    requires
        old(pool).wf(),
    ensures
        final(pool).wf(),
        final(pool).worker_count() == old(pool).worker_count(),
        final(pool).is_open() == old(pool).is_open(),
        old(pool).is_open() ==> extends_with_jobs(
            old(pool).submitted(),
            final(pool).submitted(),
            *cfg,
            tree_jobs(*t, *cfg, dir@),
        ),
        !old(pool).is_open() ==> *final(pool) == *old(pool),
    decreases *t, 0int,
{
    let ghost s0 = pool.submitted();
    if skip_entry(cfg, &t.name, t.ignored) {
        proof {
            assert(tree_jobs(*t, *cfg, dir@) =~= Seq::<Seq<char>>::empty());
            assert(extends_with_jobs(s0, s0, *cfg, Seq::<Seq<char>>::empty()));
        }
    } else {
        let path = join_path(dir.as_str(), t.name.as_str());
        let ghost path_view = path@;
        match &t.node {
            FsNode::File => {
                let job_cfg = Config {
                    query: cfg.query.clone(),
                    file_path: path,
                    original_path: cfg.original_path.clone(),
                    ignore_case: cfg.ignore_case,
                    hidden_files: cfg.hidden_files,
                    force_git: cfg.force_git,
                    thread_count: cfg.thread_count,
                };
                let job = Job { config: job_cfg };
                proof {
                    assert(job_for(job, *cfg, child_path(dir@, t.name@)));
                }
                pool.execute(job);
                proof {
                    if old(pool).is_open() {
                        assert(tree_jobs(*t, *cfg, dir@) =~= seq![child_path(dir@, t.name@)]);
                        assert(pool.submitted() == s0.push(job));
                        assert(extends_with_jobs(s0, s0.push(job), *cfg, seq![child_path(dir@, t.name@)]));
                    }
                }
            },
            FsNode::Dir(entries) => {
                walk_from(entries, 0, cfg, &path, pool);
                proof {
                    if old(pool).is_open() {
                        assert(tree_jobs(*t, *cfg, dir@) == forest_jobs_from(
                            entries@,
                            0,
                            *cfg,
                            path_view,
                        ));
                    }
                }
            },
        }
    }
}

/// Walks the entries of one directory from index `from` on, in order.
fn walk_from(entries: &Vec<FsTree>, from: usize, cfg: &Config, dir: &String, pool: &mut ThreadPool)
    requires
        old(pool).wf(),
        from <= entries@.len(),
    ensures
        final(pool).wf(),
        final(pool).worker_count() == old(pool).worker_count(),
        final(pool).is_open() == old(pool).is_open(),
        old(pool).is_open() ==> extends_with_jobs(
            old(pool).submitted(),
            final(pool).submitted(),
            *cfg,
            forest_jobs_from(entries@, from as int, *cfg, dir@),
        ),
        !old(pool).is_open() ==> *final(pool) == *old(pool),
    decreases entries@, entries@.len() - from,
{
    let ghost s0 = pool.submitted();
    if from < entries.len() {
        walk_entry(&entries[from], cfg, dir, pool);
        let ghost s1 = pool.submitted();
        walk_from(entries, from + 1, cfg, dir, pool);
        proof {
            if old(pool).is_open() {
                lemma_extends_concat(
                    s0,
                    s1,
                    pool.submitted(),
                    *cfg,
                    tree_jobs(entries@[from as int], *cfg, dir@),
                    forest_jobs_from(entries@, from + 1, *cfg, dir@),
                );
            }
        }
    } else {
        proof {
            assert(forest_jobs_from(entries@, from as int, *cfg, dir@) =~= Seq::<Seq<char>>::empty());
            assert(extends_with_jobs(s0, s0, *cfg, Seq::<Seq<char>>::empty()));
        }
    }
}

/// Walks the enumerated entries of the directory at `dir` and submits
/// one search job to the pool for every qualifying file below them, in
/// traversal order: exactly the files of `forest_jobs`, each with its
/// fully resolved path. The walk itself is synchronous; it returns
/// without waiting for any job to run. On a pool whose disposal has
/// already begun the walk submits nothing and leaves the pool as it was.
pub fn walk(entries: &Vec<FsTree>, cfg: &Config, dir: &String, pool: &mut ThreadPool)
    requires
        old(pool).wf(),
    ensures
        final(pool).wf(),
        final(pool).worker_count() == old(pool).worker_count(),
        final(pool).is_open() == old(pool).is_open(),
        old(pool).is_open() ==> extends_with_jobs(
            old(pool).submitted(),
            final(pool).submitted(),
            *cfg,
            forest_jobs(entries@, *cfg, dir@),
        ),
        !old(pool).is_open() ==> *final(pool) == *old(pool),
{
    walk_from(entries, 0, cfg, dir, pool);
}

/// The number of regular files below one entry, filters aside.
pub open spec fn tree_file_count(t: FsTree) -> nat
    decreases t, 0int,
{
    match t.node {
        FsNode::File => 1,
        FsNode::Dir(entries) => forest_file_count_from(entries@, 0),
    }
}

/// The number of regular files below the entries of one directory, from
/// index `i` on.
pub open spec fn forest_file_count_from(es: Seq<FsTree>, i: int) -> nat
    decreases es, es.len() - i,
{
    if i < 0 || i >= es.len() {
        0
    } else {
        tree_file_count(es[i]) + forest_file_count_from(es, i + 1)
    }
}

/// With hidden entries searched and the ignore rules overridden, no
/// entry is filtered: the walk submits exactly one job per regular file
/// below the tree, whatever the worker count or the rest of the
/// configuration.
pub proof fn lemma_no_filters_counts_all_files(t: FsTree, cfg: Config, dir: Seq<char>)
    requires
        cfg.hidden_files,
        cfg.force_git,
    ensures
        tree_jobs(t, cfg, dir).len() == tree_file_count(t),
    decreases t, 0int,
{
    if !spec_skip_entry(cfg, t.name@, t.ignored) {
        match t.node {
            FsNode::File => {},
            FsNode::Dir(entries) => {
                lemma_no_filters_counts_all_files_forest(
                    entries@,
                    0,
                    cfg,
                    child_path(dir, t.name@),
                );
            },
        }
    }
}

/// Forest form of `lemma_no_filters_counts_all_files`.
pub proof fn lemma_no_filters_counts_all_files_forest(
    es: Seq<FsTree>,
    i: int,
    cfg: Config,
    dir: Seq<char>,
)
    requires
        cfg.hidden_files,
        cfg.force_git,
    ensures
        forest_jobs_from(es, i, cfg, dir).len() == forest_file_count_from(es, i),
    decreases es, es.len() - i,
{
    if 0 <= i < es.len() {
        lemma_no_filters_counts_all_files(es[i], cfg, dir);
        lemma_no_filters_counts_all_files_forest(es, i + 1, cfg, dir);
    }
}

/// The hidden-name policy: while hidden entries are not searched, an
/// entry whose name starts with the hidden marker contributes nothing —
/// it is neither descended into nor submitted; while they are searched,
/// the hidden marker never causes a skip, and only an unoverridden
/// ignore verdict can.
pub proof fn lemma_hidden_marker(t: FsTree, cfg: Config, dir: Seq<char>)
    ensures
        (!cfg.hidden_files && t.name@.len() > 0 && t.name@[0] == '.') ==> tree_jobs(t, cfg, dir)
            == Seq::<Seq<char>>::empty(),
        cfg.hidden_files ==> spec_skip_entry(cfg, t.name@, t.ignored) == (t.ignored
            && !cfg.force_git),
{
}

/// Two trees with the same names and shape, differing at most in the
/// recorded ignore verdicts.
pub open spec fn same_but_ignored(a: FsTree, b: FsTree) -> bool
    decreases a, 0int,
{
    &&& a.name@ == b.name@
    &&& match (a.node, b.node) {
        (FsNode::File, FsNode::File) => true,
        (FsNode::Dir(ea), FsNode::Dir(eb)) => forest_same_but_ignored_from(ea@, eb@, 0),
        _ => false,
    }
}

/// Forest form of `same_but_ignored`, from index `i` on.
pub open spec fn forest_same_but_ignored_from(ea: Seq<FsTree>, eb: Seq<FsTree>, i: int) -> bool
    decreases ea, ea.len() - i,
{
    &&& ea.len() == eb.len()
    &&& (0 <= i < ea.len() ==> same_but_ignored(ea[i], eb[i]) && forest_same_but_ignored_from(
        ea,
        eb,
        i + 1,
    ))
}

/// When the configuration overrides the ignore rules, the evaluator's
/// verdicts make no difference: entries it would reject are searched all
/// the same.
pub proof fn lemma_override_ignores_verdicts(a: FsTree, b: FsTree, cfg: Config, dir: Seq<char>)
    requires
        cfg.force_git,
        same_but_ignored(a, b),
    ensures
        tree_jobs(a, cfg, dir) == tree_jobs(b, cfg, dir),
    decreases a, 0int,
{
    assert(spec_skip_entry(cfg, a.name@, a.ignored) == spec_skip_entry(cfg, b.name@, b.ignored));
    if !spec_skip_entry(cfg, a.name@, a.ignored) {
        match (a.node, b.node) {
            (FsNode::Dir(ea), FsNode::Dir(eb)) => {
                lemma_override_ignores_verdicts_forest(
                    ea@,
                    eb@,
                    0,
                    cfg,
                    child_path(dir, a.name@),
                );
            },
            _ => {},
        }
    }
}

/// Forest form of `lemma_override_ignores_verdicts`.
pub proof fn lemma_override_ignores_verdicts_forest(
    ea: Seq<FsTree>,
    eb: Seq<FsTree>,
    i: int,
    cfg: Config,
    dir: Seq<char>,
)
    requires
        cfg.force_git,
        forest_same_but_ignored_from(ea, eb, i),
    ensures
        forest_jobs_from(ea, i, cfg, dir) == forest_jobs_from(eb, i, cfg, dir),
    decreases ea, ea.len() - i,
{
    if 0 <= i < ea.len() {
        lemma_override_ignores_verdicts(ea[i], eb[i], cfg, dir);
        lemma_override_ignores_verdicts_forest(ea, eb, i + 1, cfg, dir);
    }
}

/// Which files get jobs depends only on the tree and the two filter
/// flags: two configurations that agree on the hidden-files flag and the
/// ignore override — whatever their worker counts, queries, or case
/// flags — select exactly the same file paths.
pub proof fn lemma_paths_depend_on_filters_only(t: FsTree, c1: Config, c2: Config, dir: Seq<char>)
    requires
        c1.hidden_files == c2.hidden_files,
        c1.force_git == c2.force_git,
    ensures
        tree_jobs(t, c1, dir) == tree_jobs(t, c2, dir),
    decreases t, 0int,
{
    assert(spec_skip_entry(c1, t.name@, t.ignored) == spec_skip_entry(c2, t.name@, t.ignored));
    if !spec_skip_entry(c1, t.name@, t.ignored) {
        match t.node {
            FsNode::File => {},
            FsNode::Dir(entries) => {
                lemma_paths_depend_on_filters_only_forest(
                    entries@,
                    0,
                    c1,
                    c2,
                    child_path(dir, t.name@),
                );
            },
        }
    }
}

/// Forest form of `lemma_paths_depend_on_filters_only`.
pub proof fn lemma_paths_depend_on_filters_only_forest(
    es: Seq<FsTree>,
    i: int,
    c1: Config,
    c2: Config,
    dir: Seq<char>,
)
    requires
        c1.hidden_files == c2.hidden_files,
        c1.force_git == c2.force_git,
    ensures
        forest_jobs_from(es, i, c1, dir) == forest_jobs_from(es, i, c2, dir),
    decreases es, es.len() - i,
{
    if 0 <= i < es.len() {
        lemma_paths_depend_on_filters_only(es[i], c1, c2, dir);
        lemma_paths_depend_on_filters_only_forest(es, i + 1, c1, c2, dir);
    }
}

} // verus!

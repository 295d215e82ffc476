//! The streaming trace-tree builder: the frame parser with its relevance
//! cache, the per-line state machine, and the driver that builds the
//! visible tree from a stack-flow log.

use vstd::prelude::*;
use vstd::pervasive::VecAdditionalExecFns;
use crate::config::Configuration;
use crate::config::Pattern;
use crate::config::pattern_views;
use crate::config::re_match;
use crate::data::Record;
use crate::data::parse_token;
use crate::data::spec_parse_token;
use crate::data::spec_render;
use crate::tree::TreeModel;
use crate::tree::RowModel;
use crate::tree::VisibleTree;
use crate::tree::spec_insert;
use crate::tree::spec_insert_pos;

verus! {

/// The build-relevant settings: the depth bound (reinterpreted as the
/// lookback window in pattern mode), the size budget, and the relevance
/// pattern texts.
pub ghost struct BuildConfig {
    pub depth: nat,
    pub max_size: nat,
    pub patterns: Seq<Seq<char>>,
}

/// The build-relevant part of a session's configuration.
pub open spec fn build_config_of(c: Configuration) -> BuildConfig {
    BuildConfig {
        depth: c.depth as nat,
        max_size: c.max_size as nat,
        patterns: pattern_views(c.only@),
    }
}

/// Mathematical content of one logical stack frame.
pub ghost struct FrameModel {
    pub line: Seq<char>,
    pub row: Option<int>,
    pub matched: bool,
}

/// One frame of the logical call stack.
struct Node {
    /// Original line from the stack-flow file, stripped of the leading sign.
    orig_line: String,
    /// Row of the materialized node in the visible tree; set exactly while
    /// the node is being displayed.
    view_row: Option<usize>,
    /// Whether this frame's line matched one of the relevance patterns.
    matched_an_only: bool,
}

impl View for Node {
    type V = FrameModel;

    closed spec fn view(&self) -> FrameModel {
        FrameModel {
            line: self.orig_line@,
            row: match self.view_row {
                Some(p) => Some(p as int),
                None => None,
            },
            matched: self.matched_an_only,
        }
    }
}

/// The frame models of a stack, bottom first.
spec fn stack_models(s: Seq<Node>) -> Seq<FrameModel> {
    Seq::new(s.len(), |i: int| s[i]@)
}

/// Every materialized frame's row points at an existing tree row.
pub open spec fn stack_rows_ok(stack: Seq<FrameModel>, rows_len: int) -> bool {
    forall|i: int|
        0 <= i < stack.len() ==> match (#[trigger] stack[i]).row {
            Some(p) => 0 <= p < rows_len,
            None => true,
        }
}

/// Every frame's line parses as a frame token.
pub open spec fn stack_lines_parse(stack: Seq<FrameModel>) -> bool {
    forall|i: int| 0 <= i < stack.len() ==> spec_parse_token((#[trigger] stack[i]).line) is Some
}

/// The number of frames not yet materialized.
pub open spec fn unmat_count(stack: Seq<FrameModel>) -> nat
    decreases stack.len(),
{
    if stack.len() == 0 {
        0
    } else {
        unmat_count(stack.drop_last()) + if stack.last().row is None {
            1nat
        } else {
            0nat
        }
    }
}

/// Whether the rendered form of a parseable line matches some pattern.
pub open spec fn spec_line_matches(patterns: Seq<Seq<char>>, line: Seq<char>) -> bool {
    exists|k: int|
        0 <= k < patterns.len() && re_match(
            patterns[k],
            spec_render(spec_parse_token(line)->0),
        )
}

/// Whether a line is relevant: it parses and its rendered display form
/// matches one of the relevance patterns.
pub open spec fn spec_relevant(patterns: Seq<Seq<char>>, line: Seq<char>) -> bool {
    spec_parse_token(line) is Some && spec_line_matches(patterns, line)
}

/// What stops a parse pass, each fatal.
#[derive(PartialEq, Eq, Structural, Debug)]
pub enum ParseErrorKind {
    /// A line does not parse as a signed frame token.
    MalformedEvent,
    /// An exit line arrived while the logical stack was empty.
    UnbalancedStack,
    /// An exit line's token differs from the top of the logical stack.
    MismatchedPop,
    /// The input ended while frames were still open.
    TruncatedTrace,
}

/// The parser of stack-flow frame tokens, with its per-line relevance
/// verdict cache: one raw line recurs once per occurrence in the trace, so
/// the verdict is computed once per distinct line.
pub struct StackTraceFlowParser {
    matches: Vec<(String, bool)>,
}

impl StackTraceFlowParser {
    /// The cached verdicts are sound for the given pattern set: every cached
    /// line parses, and its verdict is its relevance.
    pub closed spec fn cache_ok(&self, patterns: Seq<Seq<char>>) -> bool {
        forall|i: int|
            0 <= i < self.matches@.len() ==> {
                &&& spec_parse_token((#[trigger] self.matches@[i]).0@) is Some
                &&& self.matches@[i].1 == spec_relevant(patterns, self.matches@[i].0@)
            }
    }

    /// Whether a verdict for this raw line is memoized.
    pub closed spec fn has_verdict(&self, line: Seq<char>) -> bool {
        exists|i: int| 0 <= i < self.matches@.len() && (#[trigger] self.matches@[i]).0@ == line
    }

    /// A parser with an empty cache, sound for any pattern set.
    pub fn new() -> (r: StackTraceFlowParser)
        ensures
            forall|patterns: Seq<Seq<char>>| r.cache_ok(patterns),
    {
        StackTraceFlowParser { matches: Vec::new() }
    }

    /// Parses one frame token, or reports a malformed token with `None`.
    pub fn parse(&self, line: &str) -> (r: Option<Record>)
        ensures
            r is Some <==> spec_parse_token(line@) is Some,
            r matches Some(rec) ==> Some(rec@) == spec_parse_token(line@),
    {
        parse_token(line)
    }
}

/// Whether the line is relevant, memoized per distinct raw line: on the
/// first query the line is parsed, its rendered form is matched against
/// every pattern, and the verdict is cached; a later query for the same
/// line returns the cached verdict and leaves the cache untouched.
fn matches_an_only(parser: &mut StackTraceFlowParser, line: &str, onlys: &Vec<Pattern>) -> (r:
    Result<bool, ParseErrorKind>)
    requires
        old(parser).cache_ok(pattern_views(onlys@)),
    ensures
        final(parser).cache_ok(pattern_views(onlys@)),
        r is Ok <==> spec_parse_token(line@) is Some,
        r matches Ok(b) ==> b == spec_line_matches(pattern_views(onlys@), line@),
        r is Err ==> r == Err::<bool, ParseErrorKind>(ParseErrorKind::MalformedEvent),
        r is Ok ==> final(parser).has_verdict(line@),
        old(parser).has_verdict(line@) ==> *final(parser) == *old(parser),
        r is Err ==> *final(parser) == *old(parser),
        forall|l: Seq<char>|
            old(parser).has_verdict(l) ==> final(parser).has_verdict(l),
{
    let ghost patterns = pattern_views(onlys@);
    let key = line.to_owned();
    let n = parser.matches.len();
    let mut i: usize = 0;
    while i < n
        invariant
            n == parser.matches@.len(),
            i <= n,
            key@ == line@,
            patterns == pattern_views(onlys@),
            parser.cache_ok(patterns),
            *parser == *old(parser),
            forall|j: int| 0 <= j < i ==> (#[trigger] parser.matches@[j]).0@ != line@,
        decreases n - i,
    {
        if parser.matches[i].0 == key {
            proof {
                assert(parser.matches@[i as int].0@ == line@);
                assert(parser.matches@[i as int].1 == spec_relevant(
                    patterns,
                    parser.matches@[i as int].0@,
                ));
            }
            return Ok(parser.matches[i].1);
        }
        i = i + 1;
    }
    match parse_token(line) {
        None => Err(ParseErrorKind::MalformedEvent),
        Some(rec) => {
            let rendered = rec.display_string();
            let mut value = false;
            let m = onlys.len();
            let mut k: usize = 0;
            while k < m
                invariant
                    m == onlys@.len(),
                    k <= m,
                    patterns == pattern_views(onlys@),
                    rendered@ == spec_render(spec_parse_token(line@)->0),
                    value == exists|j: int|
                        0 <= j < k && re_match(patterns[j], spec_render(
                            spec_parse_token(line@)->0,
                        )),
                decreases m - k,
            {
                let hit = onlys[k].is_match(rendered.as_str());
                proof {
                    assert(patterns[k as int] == onlys@[k as int]@);
                }
                if hit {
                    value = true;
                }
                k = k + 1;
            }
            let ghost pre = parser.matches@;
            parser.matches.push((key, value));
            proof {
                assert forall|j: int| 0 <= j < parser.matches@.len() implies {
                    &&& spec_parse_token((#[trigger] parser.matches@[j]).0@) is Some
                    &&& parser.matches@[j].1 == spec_relevant(patterns, parser.matches@[j].0@)
                } by {
                    if j < pre.len() {
                        assert(parser.matches@[j] == pre[j]);
                    }
                }
                assert(parser.matches@[pre.len() as int].0@ == line@);
                assert forall|l: Seq<char>| old(parser).has_verdict(l) implies parser.has_verdict(
                    l,
                ) by {
                    let w = choose|w: int|
                        0 <= w < pre.len() && (#[trigger] pre[w]).0@ == l;
                    assert(parser.matches@[w] == pre[w]);
                }
            }
            Ok(value)
        },
    }
}

/// The row under which a new child of this frame is placed: its own row, or
/// the root row when it was never materialized.
pub open spec fn frame_row_or_zero(f: FrameModel) -> int {
    match f.row {
        Some(p) => p,
        None => 0,
    }
}

/// The state of a parse pass: the logical call stack and the visible tree.
pub ghost struct BuildState {
    pub stack: Seq<FrameModel>,
    pub tree: TreeModel,
}

/// One `+` line in depth/size mode: the frame is materialized as the last
/// child of the nearest visible ancestor exactly when the stack is shallower
/// than the depth bound and the tree is below the size budget; the line is
/// parsed only then, and only then can it be found malformed (`None`).
pub open spec fn spec_push_full(cfg: BuildConfig, st: BuildState, line: Seq<char>) -> Option<
    BuildState,
> {
    if st.stack.len() < cfg.depth && st.tree.rows.len() < cfg.max_size {
        match spec_parse_token(line) {
            None => None,
            Some(rec) => {
                let parent = if st.stack.len() == 0 {
                    0
                } else {
                    frame_row_or_zero(st.stack.last())
                };
                let pos = spec_insert_pos(st.tree, parent);
                Some(
                    BuildState {
                        stack: st.stack.push(FrameModel { line, row: Some(pos), matched: false }),
                        tree: spec_insert(st.tree, rec, parent),
                    },
                )
            },
        }
    } else {
        Some(
            BuildState {
                stack: st.stack.push(FrameModel { line, row: None, matched: false }),
                tree: st.tree,
            },
        )
    }
}

/// Processes one `+` line in depth/size mode.
fn add_line_with_full_tree(
    configuration: &Configuration,
    tree: &mut VisibleTree,
    stack: &mut Vec<Node>,
    line: &str,
) -> (r: Result<(), ParseErrorKind>)
    requires
        old(tree).inv(),
        old(tree)@.rows.len() < usize::MAX,
        stack_rows_ok(stack_models(old(stack)@), old(tree)@.rows.len() as int),
    ensures
        final(tree).inv(),
        stack_rows_ok(stack_models(final(stack)@), final(tree)@.rows.len() as int),
        final(tree)@.rows.len() + unmat_count(stack_models(final(stack)@)) <= old(
            tree,
        )@.rows.len() + unmat_count(stack_models(old(stack)@)) + 1,
        ({
            let st0 = BuildState { stack: stack_models(old(stack)@), tree: old(tree)@ };
            match spec_push_full(build_config_of(*configuration), st0, line@) {
                None => r == Err::<(), ParseErrorKind>(ParseErrorKind::MalformedEvent)
                    && final(tree)@ == old(tree)@ && final(stack)@ == old(stack)@,
                Some(st2) => r is Ok && stack_models(final(stack)@) == st2.stack && final(tree)@
                    == st2.tree,
            }
        }),
{
    let ghost st0 = BuildState { stack: stack_models(old(stack)@), tree: old(tree)@ };
    let mut view_row: Option<usize> = None;
    if stack.len() < configuration.depth as usize && tree.len() < configuration.max_size {
        let rec = match parse_token(line) {
            None => {
                return Err(ParseErrorKind::MalformedEvent);
            },
            Some(rec) => rec,
        };
        let parent: usize = if stack.len() == 0 {
            0
        } else {
            match stack[stack.len() - 1].view_row {
                Some(p) => p,
                None => 0,
            }
        };
        proof {
            if stack@.len() > 0 {
                assert(stack_models(stack@)[stack@.len() - 1] == stack@[stack@.len() - 1]@);
            }
        }
        let row = tree.insert_item(rec, parent);
        proof {
            if st0.tree.rows.len() > 0 {
                crate::tree::lemma_scan_end(
                    st0.tree.rows,
                    st0.tree.rows[parent as int].depth,
                    (parent + 1) as nat,
                );
            }
        }
        view_row = Some(row);
    }
    stack.push(
        Node { orig_line: line.to_owned(), view_row, matched_an_only: false },
    );
    proof {
        assert(stack_models(stack@) =~= (match spec_push_full(
            build_config_of(*configuration),
            st0,
            line@,
        ) {
            Some(st2) => st2.stack,
            None => stack_models(stack@),
        }));
        let ns = stack_models(stack@);
        let os = stack_models(old(stack)@);
        assert(ns.drop_last() =~= os);
        lemma_unmat_push(os, ns.last());
        assert forall|ii: int| 0 <= ii < ns.len() implies match (#[trigger] ns[ii]).row {
            Some(p) => 0 <= p < tree@.rows.len(),
            None => true,
        } by {
            if ii < ns.len() - 1 {
                assert(ns[ii] == os[ii]);
            }
        }
    }
    Ok(())
}

/// Counting one fewer unmaterialized frame after one is given a row.
proof fn lemma_unmat_update(stack: Seq<FrameModel>, k: int, f: FrameModel)
    requires
        0 <= k < stack.len(),
        stack[k].row is None,
        f.row is Some,
    ensures
        unmat_count(stack.update(k, f)) + 1 == unmat_count(stack),
    decreases stack.len(),
{
    if k == stack.len() - 1 {
        assert(stack.update(k, f).drop_last() =~= stack.drop_last());
        assert(stack.update(k, f).last() == f);
    } else {
        lemma_unmat_update(stack.drop_last(), k, f);
        assert(stack.update(k, f).drop_last() =~= stack.drop_last().update(k, f));
        assert(stack.update(k, f).last() == stack.last());
    }
}

/// A stack whose frames all have rows has no unmaterialized frame.
proof fn lemma_unmat_zero(stack: Seq<FrameModel>)
    requires
        forall|i: int| 0 <= i < stack.len() ==> (#[trigger] stack[i]).row is Some,
    ensures
        unmat_count(stack) == 0,
    decreases stack.len(),
{
    if stack.len() > 0 {
        lemma_unmat_zero(stack.drop_last());
    }
}

/// Pushing a frame adds its own unmaterialized count.
proof fn lemma_unmat_push(stack: Seq<FrameModel>, f: FrameModel)
    ensures
        unmat_count(stack.push(f)) == unmat_count(stack) + if f.row is None {
            1nat
        } else {
            0nat
        },
{
    assert(stack.push(f).drop_last() =~= stack);
    assert(stack.push(f).last() == f);
}

/// Materializing the not-yet-visible part of the current path: walking the
/// stack bottom to top, every frame without a row is inserted as the last
/// child of the previous frame's row (the root row for the first frame), so
/// the visible tree never holds a node whose parent is missing.
pub open spec fn spec_backfill(stack: Seq<FrameModel>, t: TreeModel, k: int, prev: int) -> (
    Seq<FrameModel>,
    TreeModel,
)
    decreases stack.len() - k,
{
    if k < 0 || k >= stack.len() {
        (stack, t)
    } else {
        match stack[k].row {
            Some(p) => spec_backfill(stack, t, k + 1, p),
            None => {
                let rec = spec_parse_token(stack[k].line)->0;
                let pos = spec_insert_pos(t, prev);
                let stack2 = stack.update(
                    k,
                    FrameModel { line: stack[k].line, row: Some(pos), matched: stack[k].matched },
                );
                spec_backfill(stack2, spec_insert(t, rec, prev), k + 1, pos)
            },
        }
    }
}

/// Ensures every ancestor on the current stack is materialized, bottom to
/// top, before a newly relevant node is inserted beneath them.
fn add_current_path(tree: &mut VisibleTree, stack: &mut Vec<Node>)
    requires
        old(tree).inv(),
        stack_rows_ok(stack_models(old(stack)@), old(tree)@.rows.len() as int),
        stack_lines_parse(stack_models(old(stack)@)),
        old(tree)@.rows.len() + unmat_count(stack_models(old(stack)@)) < usize::MAX,
    ensures
        final(tree).inv(),
        stack_rows_ok(stack_models(final(stack)@), final(tree)@.rows.len() as int),
        stack_lines_parse(stack_models(final(stack)@)),
        forall|i: int|
            0 <= i < final(stack)@.len() ==> (#[trigger] stack_models(final(stack)@)[i]).row
                is Some,
        final(tree)@.rows.len() == old(tree)@.rows.len() + unmat_count(
            stack_models(old(stack)@),
        ),
        ({
            let r = spec_backfill(stack_models(old(stack)@), old(tree)@, 0, 0);
            stack_models(final(stack)@) == r.0 && final(tree)@ == r.1
        }),
{
    let ghost s0 = stack_models(old(stack)@);
    let ghost t0 = old(tree)@;
    let mut previous_row: usize = 0;
    let n = stack.len();
    let mut k: usize = 0;
    while k < n
        invariant
            tree.inv(),
            n == stack@.len(),
            k <= n,
            stack_rows_ok(stack_models(stack@), tree@.rows.len() as int),
            stack_lines_parse(stack_models(stack@)),
            tree@.rows.len() + unmat_count(stack_models(stack@)) == t0.rows.len() + unmat_count(
                s0,
            ),
            t0.rows.len() + unmat_count(s0) < usize::MAX,
            forall|i: int|
                0 <= i < k ==> (#[trigger] stack_models(stack@)[i]).row is Some,
            k == 0 ==> previous_row == 0,
            k > 0 ==> stack_models(stack@)[k - 1].row == Some(previous_row as int),
            spec_backfill(s0, t0, 0, 0) == spec_backfill(
                stack_models(stack@),
                tree@,
                k as int,
                previous_row as int,
            ),
        decreases n - k,
    {
        let ghost pre_models = stack_models(stack@);
        let ghost pre_tree = tree@;
        match stack[k].view_row {
            Some(p) => {
                proof {
                    assert(pre_models[k as int] == stack@[k as int]@);
                }
                previous_row = p;
            },
            None => {
                proof {
                    assert(pre_models[k as int] == stack@[k as int]@);
                    assert(spec_parse_token(pre_models[k as int].line) is Some);
                    lemma_unmat_update(
                        pre_models,
                        k as int,
                        FrameModel {
                            line: pre_models[k as int].line,
                            row: Some(spec_insert_pos(pre_tree, previous_row as int)),
                            matched: pre_models[k as int].matched,
                        },
                    );
                }
                let rec_opt = parse_token(stack[k].orig_line.as_str());
                let rec = rec_opt.unwrap();
                let row = tree.insert_item(rec, previous_row);
                proof {
                    if pre_tree.rows.len() > 0 {
                        crate::tree::lemma_scan_end(
                            pre_tree.rows,
                            pre_tree.rows[previous_row as int].depth,
                            (previous_row + 1) as nat,
                        );
                    }
                }
                let node = Node {
                    orig_line: stack[k].orig_line.clone(),
                    view_row: Some(row),
                    matched_an_only: stack[k].matched_an_only,
                };
                stack.set(k, node);
                proof {
                    assert(stack_models(stack@) =~= pre_models.update(
                        k as int,
                        FrameModel {
                            line: pre_models[k as int].line,
                            row: Some(row as int),
                            matched: pre_models[k as int].matched,
                        },
                    ));
                }
                previous_row = row;
            },
        }
        k = k + 1;
    }
    proof {
        lemma_unmat_zero(stack_models(stack@));
    }
}

/// Whether a frame within the lookback window of the stack top matched a
/// relevance pattern.
pub open spec fn spec_window_hit(cfg: BuildConfig, stack: Seq<FrameModel>) -> bool {
    exists|j: int|
        stack.len() - cfg.depth <= j < stack.len() && 0 <= j && (#[trigger] stack[j]).matched
}

/// One `+` line in pattern mode: the line is parsed eagerly (through the
/// relevance cache) and can be found malformed (`None`). Past the size
/// budget only stack bookkeeping continues. A relevant frame, or one with a
/// matched frame within the lookback window, is materialized after its whole
/// path is; anything else is recorded unmaterialized.
pub open spec fn spec_push_only(cfg: BuildConfig, st: BuildState, line: Seq<char>) -> Option<
    BuildState,
> {
    match spec_parse_token(line) {
        None => None,
        Some(rec) => {
            let matched = spec_line_matches(cfg.patterns, line);
            if st.tree.rows.len() >= cfg.max_size {
                Some(
                    BuildState {
                        stack: st.stack.push(FrameModel { line, row: None, matched }),
                        tree: st.tree,
                    },
                )
            } else if matched || spec_window_hit(cfg, st.stack) {
                let r = spec_backfill(st.stack, st.tree, 0, 0);
                let parent = if r.0.len() == 0 {
                    0
                } else {
                    frame_row_or_zero(r.0.last())
                };
                let pos = spec_insert_pos(r.1, parent);
                Some(
                    BuildState {
                        stack: r.0.push(FrameModel { line, row: Some(pos), matched }),
                        tree: spec_insert(r.1, rec, parent),
                    },
                )
            } else {
                Some(
                    BuildState {
                        stack: st.stack.push(FrameModel { line, row: None, matched }),
                        tree: st.tree,
                    },
                )
            }
        },
    }
}

/// Processes one `+` line in pattern mode.
fn add_line_with_only(
    parser: &mut StackTraceFlowParser,
    configuration: &Configuration,
    tree: &mut VisibleTree,
    stack: &mut Vec<Node>,
    line: &str,
) -> (r: Result<(), ParseErrorKind>)
    requires
        old(parser).cache_ok(pattern_views(configuration.only@)),
        old(tree).inv(),
        stack_rows_ok(stack_models(old(stack)@), old(tree)@.rows.len() as int),
        stack_lines_parse(stack_models(old(stack)@)),
        old(tree)@.rows.len() + unmat_count(stack_models(old(stack)@)) < usize::MAX,
    ensures
        final(parser).cache_ok(pattern_views(configuration.only@)),
        final(tree).inv(),
        stack_rows_ok(stack_models(final(stack)@), final(tree)@.rows.len() as int),
        stack_lines_parse(stack_models(final(stack)@)),
        final(tree)@.rows.len() + unmat_count(stack_models(final(stack)@)) <= old(
            tree,
        )@.rows.len() + unmat_count(stack_models(old(stack)@)) + 1,
        ({
            let st0 = BuildState { stack: stack_models(old(stack)@), tree: old(tree)@ };
            match spec_push_only(build_config_of(*configuration), st0, line@) {
                None => r == Err::<(), ParseErrorKind>(ParseErrorKind::MalformedEvent)
                    && final(tree)@ == old(tree)@ && final(stack)@ == old(stack)@,
                Some(st2) => r is Ok && stack_models(final(stack)@) == st2.stack && final(tree)@
                    == st2.tree,
            }
        }),
{
    let ghost st0 = BuildState { stack: stack_models(old(stack)@), tree: old(tree)@ };
    let ghost cfg = build_config_of(*configuration);
    let matched = match matches_an_only(parser, line, &configuration.only) {
        Ok(b) => b,
        Err(k) => {
            return Err(k);
        },
    };
    if tree.len() >= configuration.max_size {
        stack.push(Node { orig_line: line.to_owned(), view_row: None, matched_an_only: matched });
        proof {
            assert(stack_models(stack@) =~= st0.stack.push(
                FrameModel { line: line@, row: None, matched },
            ));
            lemma_unmat_push(st0.stack, FrameModel { line: line@, row: None, matched });
        }
        return Ok(());
    }
    let mut do_insert = matched;
    if !matched {
        let depth = configuration.depth as usize;
        let n = stack.len();
        let lim = if depth <= n {
            depth
        } else {
            n
        };
        let mut j: usize = 0;
        let mut hit = false;
        while j < lim
            invariant
                n == stack@.len(),
                lim <= n,
                cfg == build_config_of(*configuration),
                lim == if cfg.depth <= n {
                    cfg.depth as int
                } else {
                    n as int
                },
                j <= lim,
                st0.stack == stack_models(stack@),
                hit == exists|jj: int| n - j <= jj < n && (#[trigger] st0.stack[jj]).matched,
            decreases lim - j,
        {
            proof {
                assert(st0.stack[n - 1 - j] == stack@[n - 1 - j as int]@);
            }
            if stack[n - 1 - j].matched_an_only {
                hit = true;
            }
            j = j + 1;
        }
        proof {
            assert(hit == spec_window_hit(cfg, st0.stack));
        }
        do_insert = hit;
    }
    if do_insert {
        add_current_path(tree, stack);
        let parent: usize = if stack.len() == 0 {
            0
        } else {
            match stack[stack.len() - 1].view_row {
                Some(p) => p,
                None => 0,
            }
        };
        proof {
            if stack@.len() > 0 {
                assert(stack_models(stack@)[stack@.len() - 1] == stack@[stack@.len() - 1]@);
            }
        }
        let rec_opt = parse_token(line);
        let rec = rec_opt.unwrap();
        let ghost pre_tree = tree@;
        let row = tree.insert_item(rec, parent);
        proof {
            if pre_tree.rows.len() > 0 {
                crate::tree::lemma_scan_end(
                    pre_tree.rows,
                    pre_tree.rows[parent as int].depth,
                    (parent + 1) as nat,
                );
            }
        }
        stack.push(
            Node { orig_line: line.to_owned(), view_row: Some(row), matched_an_only: matched },
        );
        proof {
            let st2 = spec_push_only(cfg, st0, line@)->0;
            assert(stack_models(stack@) =~= st2.stack);
            let ns = stack_models(stack@);
            assert(ns.drop_last() =~= st2.stack.drop_last());
            lemma_unmat_push(ns.drop_last(), ns.last());
            lemma_unmat_zero(ns.drop_last());
        }
    } else {
        stack.push(Node { orig_line: line.to_owned(), view_row: None, matched_an_only: matched });
        proof {
            assert(stack_models(stack@) =~= st0.stack.push(
                FrameModel { line: line@, row: None, matched },
            ));
            lemma_unmat_push(st0.stack, FrameModel { line: line@, row: None, matched });
        }
    }
    Ok(())
}

/// One `-` line: fails on an empty stack or when the exit token differs,
/// character for character, from the most recent unpopped enter token;
/// otherwise pops that frame.
pub open spec fn spec_pop(st: BuildState, line: Seq<char>) -> Result<BuildState, ParseErrorKind> {
    if st.stack.len() == 0 {
        Err(ParseErrorKind::UnbalancedStack)
    } else if st.stack.last().line != line {
        Err(ParseErrorKind::MismatchedPop)
    } else {
        Ok(BuildState { stack: st.stack.drop_last(), tree: st.tree })
    }
}

/// Processes one `-` line.
fn del_line(stack: &mut Vec<Node>, line: &str) -> (r: Result<(), ParseErrorKind>)
    ensures
        unmat_count(stack_models(final(stack)@)) <= unmat_count(stack_models(old(stack)@)),
        ({
            let st0 = BuildState {
                stack: stack_models(old(stack)@),
                tree: TreeModel { rows: Seq::empty(), sel: 0 },
            };
            match spec_pop(st0, line@) {
                Err(k) => r == Err::<(), ParseErrorKind>(k) && final(stack)@ == old(stack)@,
                Ok(st2) => r is Ok && stack_models(final(stack)@) == st2.stack,
            }
        }),
{
    let n = stack.len();
    if n == 0 {
        return Err(ParseErrorKind::UnbalancedStack);
    }
    proof {
        assert(stack_models(stack@).last() == stack@[n - 1]@);
    }
    let key = line.to_owned();
    if !(stack[n - 1].orig_line == key) {
        return Err(ParseErrorKind::MismatchedPop);
    }
    let _ = stack.pop();
    proof {
        assert(stack_models(stack@) =~= stack_models(old(stack)@).drop_last());
    }
    Ok(())
}

/// A fatal parse error: what went wrong, the 1-based number of the line it
/// happened on, the offending line (empty for a truncated trace), and, for
/// a mismatched pop, the enter token that was expected instead.
#[derive(Debug)]
pub struct ParseError {
    pub kind: ParseErrorKind,
    pub line_number: usize,
    pub text: String,
    pub expected: Option<String>,
}

/// One line of the parse pass: a `+` line runs the mode's push, a `-` line
/// the pop; anything else is malformed.
pub open spec fn spec_step(cfg: BuildConfig, st: BuildState, l: Seq<char>) -> Result<
    BuildState,
    ParseErrorKind,
> {
    if l.len() == 0 {
        Err(ParseErrorKind::MalformedEvent)
    } else if l[0] == '+' {
        let p = if cfg.patterns.len() == 0 {
            spec_push_full(cfg, st, l.skip(1))
        } else {
            spec_push_only(cfg, st, l.skip(1))
        };
        match p {
            None => Err(ParseErrorKind::MalformedEvent),
            Some(st2) => Ok(st2),
        }
    } else if l[0] == '-' {
        spec_pop(st, l.skip(1))
    } else {
        Err(ParseErrorKind::MalformedEvent)
    }
}

/// The parse pass from line `i` on: the state where it stops, and the index
/// and kind of the first fatal error, if any; a nonempty stack at the end
/// of input is fatal too.
pub open spec fn spec_run(cfg: BuildConfig, lines: Seq<Seq<char>>, i: int, st: BuildState) -> (
    BuildState,
    Option<(int, ParseErrorKind)>,
)
    decreases lines.len() - i,
{
    if i < 0 || i >= lines.len() {
        if st.stack.len() == 0 {
            (st, None)
        } else {
            (st, Some((lines.len() as int, ParseErrorKind::TruncatedTrace)))
        }
    } else {
        match spec_step(cfg, st, lines[i]) {
            Err(k) => (st, Some((i, k))),
            Ok(st2) => spec_run(cfg, lines, i + 1, st2),
        }
    }
}

/// The texts of a line list, in order.
pub open spec fn lines_views(lines: Seq<String>) -> Seq<Seq<char>> {
    Seq::new(lines.len(), |i: int| lines[i]@)
}

/// The parse pass's starting state: an empty stack over the given tree.
pub open spec fn init_build_state(t: TreeModel) -> BuildState {
    BuildState { stack: Seq::empty(), tree: t }
}

/// Builds the visible tree from the lines of a stack-flow log, running the
/// streaming state machine line by line. Succeeds exactly when every line
/// is a well-formed event and the pushes and pops balance; it stops at the
/// first fatal error, reports that error's 1-based line number and
/// offending text, and leaves in the tree exactly the rows built before the
/// failure point.
pub fn read_stacktraceflow_lines(
    configuration: &Configuration,
    tree: &mut VisibleTree,
    lines: &Vec<String>,
) -> (r: Result<(), ParseError>)
    requires
        old(tree).inv(),
        old(tree)@.rows.len() == 0,
        lines@.len() < usize::MAX,
    ensures
        final(tree).inv(),
        ({
            let run = spec_run(
                build_config_of(*configuration),
                lines_views(lines@),
                0,
                init_build_state(old(tree)@),
            );
            &&& final(tree)@ == run.0.tree
            &&& match run.1 {
                None => r is Ok,
                Some((idx, kind)) => r matches Err(e) && e.kind == kind && e.line_number == idx + 1
                    && (idx < lines@.len() ==> e.text@ == lines@[idx]@) && (idx == lines@.len()
                    ==> e.text@.len() == 0) && (kind == ParseErrorKind::MismatchedPop ==> (
                    e.expected matches Some(x) && run.0.stack.len() > 0 && x@
                        == run.0.stack.last().line)) && (kind != ParseErrorKind::MismatchedPop
                    ==> e.expected is None),
            }
        }),
{
    let ghost cfg = build_config_of(*configuration);
    let ghost lv = lines_views(lines@);
    let ghost st_init = init_build_state(old(tree)@);
    let mut parser = StackTraceFlowParser::new();
    let mut stack: Vec<Node> = Vec::new();
    let pattern_mode = configuration.only.len() > 0;
    let n = lines.len();
    let mut counter: usize = 0;
    proof {
        assert(stack_models(stack@) =~= Seq::<FrameModel>::empty());
    }
    while counter < n
        invariant
            parser.cache_ok(cfg.patterns),
            tree.inv(),
            cfg == build_config_of(*configuration),
            lv == lines_views(lines@),
            st_init == init_build_state(old(tree)@),
            n == lines@.len(),
            n < usize::MAX,
            counter <= n,
            pattern_mode == (cfg.patterns.len() > 0),
            stack_rows_ok(stack_models(stack@), tree@.rows.len() as int),
            cfg.patterns.len() > 0 ==> stack_lines_parse(stack_models(stack@)),
            tree@.rows.len() + unmat_count(stack_models(stack@)) <= counter,
            spec_run(cfg, lv, 0, st_init) == spec_run(
                cfg,
                lv,
                counter as int,
                BuildState { stack: stack_models(stack@), tree: tree@ },
            ),
        decreases n - counter,
    {
        let ghost pre = BuildState { stack: stack_models(stack@), tree: tree@ };
        let line = &lines[counter];
        let ll = line.as_str();
        let len0 = ll.unicode_len();
        proof {
            assert(lv[counter as int] == line@);
        }
        if len0 == 0 {
            proof {
                assert(spec_step(cfg, pre, lv[counter as int]) == Err::<
                    BuildState,
                    ParseErrorKind,
                >(ParseErrorKind::MalformedEvent));
                assert(spec_run(cfg, lv, counter as int, pre) == (
                    pre,
                    Some((counter as int, ParseErrorKind::MalformedEvent)),
                ));
            }
            return Err(
                ParseError {
                    kind: ParseErrorKind::MalformedEvent,
                    line_number: counter + 1,
                    text: line.clone(),
                    expected: None,
                },
            );
        }
        let c = ll.get_char(0);
        if c == '+' {
            let body = ll.substring_char(1, len0);
            proof {
                assert(body@ =~= lv[counter as int].skip(1));
            }
            let res = if pattern_mode {
                add_line_with_only(&mut parser, configuration, tree, &mut stack, body)
            } else {
                add_line_with_full_tree(configuration, tree, &mut stack, body)
            };
            match res {
                Err(k) => {
                    proof {
                        assert(spec_step(cfg, pre, lv[counter as int]) == Err::<
                            BuildState,
                            ParseErrorKind,
                        >(k));
                        assert(spec_run(cfg, lv, counter as int, pre) == (
                            pre,
                            Some((counter as int, k)),
                        ));
                    }
                    return Err(
                        ParseError {
                            kind: k,
                            line_number: counter + 1,
                            text: line.clone(),
                            expected: None,
                        },
                    );
                },
                Ok(_) => {
                    proof {
                        let st2 = BuildState { stack: stack_models(stack@), tree: tree@ };
                        assert(spec_step(cfg, pre, lv[counter as int]) == Ok::<
                            BuildState,
                            ParseErrorKind,
                        >(st2));
                        assert(spec_run(cfg, lv, counter as int, pre) == spec_run(
                            cfg,
                            lv,
                            counter + 1,
                            st2,
                        ));
                    }
                },
            }
        } else if c == '-' {
            let body = ll.substring_char(1, len0);
            proof {
                assert(body@ =~= lv[counter as int].skip(1));
            }
            match del_line(&mut stack, body) {
                Err(k) => {
                    proof {
                        assert(spec_step(cfg, pre, lv[counter as int]) == Err::<
                            BuildState,
                            ParseErrorKind,
                        >(k));
                        assert(spec_run(cfg, lv, counter as int, pre) == (
                            pre,
                            Some((counter as int, k)),
                        ));
                    }
                    let expected: Option<String> = if stack.len() > 0 {
                        proof {
                            assert(stack_models(stack@).last() == stack@[stack@.len() - 1]@);
                        }
                        Some(stack[stack.len() - 1].orig_line.clone())
                    } else {
                        None
                    };
                    return Err(
                        ParseError {
                            kind: k,
                            line_number: counter + 1,
                            text: line.clone(),
                            expected,
                        },
                    );
                },
                Ok(_) => {
                    proof {
                        let st2 = BuildState { stack: stack_models(stack@), tree: tree@ };
                        assert(spec_step(cfg, pre, lv[counter as int]) == Ok::<
                            BuildState,
                            ParseErrorKind,
                        >(st2));
                        assert(spec_run(cfg, lv, counter as int, pre) == spec_run(
                            cfg,
                            lv,
                            counter + 1,
                            st2,
                        ));
                    }
                },
            }
        } else {
            proof {
                assert(spec_step(cfg, pre, lv[counter as int]) == Err::<
                    BuildState,
                    ParseErrorKind,
                >(ParseErrorKind::MalformedEvent));
                assert(spec_run(cfg, lv, counter as int, pre) == (
                    pre,
                    Some((counter as int, ParseErrorKind::MalformedEvent)),
                ));
            }
            return Err(
                ParseError {
                    kind: ParseErrorKind::MalformedEvent,
                    line_number: counter + 1,
                    text: line.clone(),
                    expected: None,
                },
            );
        }
        counter = counter + 1;
    }
    let ghost fin = BuildState { stack: stack_models(stack@), tree: tree@ };
    if stack.len() > 0 {
        proof {
            assert(fin.stack.len() > 0);
            assert(spec_run(cfg, lv, n as int, fin) == (
                fin,
                Some((n as int, ParseErrorKind::TruncatedTrace)),
            ));
        }
        return Err(
            ParseError {
                kind: ParseErrorKind::TruncatedTrace,
                line_number: n + 1,
                text: String::new(),
                expected: None,
            },
        );
    }
    proof {
        assert(fin.stack.len() == 0);
        assert(spec_run(cfg, lv, n as int, fin) == (fin, None::<(int, ParseErrorKind)>));
    }
    Ok(())
}

/// The parse pass over lines `i..j` only: the state it reaches, or the
/// first fatal error inside that range.
pub open spec fn spec_run_to(
    cfg: BuildConfig,
    lines: Seq<Seq<char>>,
    i: int,
    j: int,
    st: BuildState,
) -> Result<BuildState, (int, ParseErrorKind)>
    decreases j - i,
{
    if !(0 <= i < j <= lines.len()) {
        Ok(st)
    } else {
        match spec_step(cfg, st, lines[i]) {
            Err(k) => Err((i, k)),
            Ok(st2) => spec_run_to(cfg, lines, i + 1, j, st2),
        }
    }
}

/// A pass that crosses line `j` without failing passes through the state
/// that the lines before `j` produce.
pub proof fn lemma_run_split(
    cfg: BuildConfig,
    lines: Seq<Seq<char>>,
    i: int,
    j: int,
    st: BuildState,
)
    requires
        0 <= i <= j <= lines.len(),
        spec_run_to(cfg, lines, i, j, st) is Ok,
    ensures
        spec_run(cfg, lines, i, st) == spec_run(
            cfg,
            lines,
            j,
            spec_run_to(cfg, lines, i, j, st)->Ok_0,
        ),
    decreases j - i,
{
    if i < j {
        match spec_step(cfg, st, lines[i]) {
            Err(k) => {
                assert(false);
            },
            Ok(st2) => {
                lemma_run_split(cfg, lines, i + 1, j, st2);
            },
        }
    }
}

/// For every malformed pop — the lines before it process without error and
/// the exit line's token differs from the innermost open enter token —
/// parsing fails exactly there with `MismatchedPop`, and no node is
/// inserted after the failure point: the pass stops in the state the
/// earlier lines built.
pub proof fn lemma_mismatched_pop_fails(
    cfg: BuildConfig,
    lines: Seq<Seq<char>>,
    t: TreeModel,
    j: int,
)
    requires
        0 <= j < lines.len(),
        spec_run_to(cfg, lines, 0, j, init_build_state(t)) is Ok,
        lines[j].len() > 0,
        lines[j][0] == '-',
        ({
            let mid = spec_run_to(cfg, lines, 0, j, init_build_state(t))->Ok_0;
            mid.stack.len() > 0 && mid.stack.last().line != lines[j].skip(1)
        }),
    ensures
        ({
            let mid = spec_run_to(cfg, lines, 0, j, init_build_state(t))->Ok_0;
            spec_run(cfg, lines, 0, init_build_state(t)) == (
                mid,
                Some((j, ParseErrorKind::MismatchedPop)),
            )
        }),
{
    lemma_run_split(cfg, lines, 0, j, init_build_state(t));
    let mid = spec_run_to(cfg, lines, 0, j, init_build_state(t))->Ok_0;
    assert(spec_step(cfg, mid, lines[j]) == Err::<BuildState, ParseErrorKind>(
        ParseErrorKind::MismatchedPop,
    ));
    assert(spec_run(cfg, lines, j, mid) == (mid, Some((j, ParseErrorKind::MismatchedPop))));
}

/// The raw enter tokens of the frames on a stack, bottom first.
pub open spec fn stack_texts(stack: Seq<FrameModel>) -> Seq<Seq<char>> {
    Seq::new(stack.len(), |i: int| stack[i].line)
}

/// The enter tokens that lines `i..j` leave open above `open`, or `None`
/// once a line is unsigned or the enter/exit pairing breaks.
pub open spec fn spec_balance(
    lines: Seq<Seq<char>>,
    i: int,
    j: int,
    open: Seq<Seq<char>>,
) -> Option<Seq<Seq<char>>>
    decreases j - i,
{
    if !(0 <= i < j <= lines.len()) {
        Some(open)
    } else {
        let l = lines[i];
        if l.len() == 0 {
            None
        } else if l[0] == '+' {
            spec_balance(lines, i + 1, j, open.push(l.skip(1)))
        } else if l[0] == '-' {
            if open.len() > 0 && open.last() == l.skip(1) {
                spec_balance(lines, i + 1, j, open.drop_last())
            } else {
                None
            }
        } else {
            None
        }
    }
}

/// A well-formed, balanced log: every enter line's token parses, and the
/// enter/exit pairing runs to an empty stack at the end of input.
pub open spec fn wf_balanced(lines: Seq<Seq<char>>) -> bool {
    &&& forall|i: int|
        0 <= i < lines.len() && (#[trigger] lines[i]).len() > 0 && lines[i][0] == '+'
            ==> spec_parse_token(lines[i].skip(1)) is Some
    &&& spec_balance(lines, 0, lines.len() as int, Seq::empty()) == Some(
        Seq::<Seq<char>>::empty(),
    )
}

/// Backfilling materializes frames but changes no frame's token or match
/// flag.
proof fn lemma_backfill_props(stack: Seq<FrameModel>, t: TreeModel, k: int, prev: int)
    ensures
        ({
            let r = spec_backfill(stack, t, k, prev);
            r.0.len() == stack.len() && forall|j: int|
                0 <= j < stack.len() ==> (#[trigger] r.0[j]).line == stack[j].line && r.0[j].matched
                    == stack[j].matched
        }),
    decreases stack.len() - k,
{
    if 0 <= k < stack.len() {
        match stack[k].row {
            Some(p) => {
                lemma_backfill_props(stack, t, k + 1, p);
            },
            None => {
                let rec = spec_parse_token(stack[k].line)->0;
                let pos = spec_insert_pos(t, prev);
                let stack2 = stack.update(
                    k,
                    FrameModel { line: stack[k].line, row: Some(pos), matched: stack[k].matched },
                );
                lemma_backfill_props(stack2, spec_insert(t, rec, prev), k + 1, pos);
            },
        }
    }
}

proof fn lemma_balanced_run(cfg: BuildConfig, lines: Seq<Seq<char>>, i: int, st: BuildState)
    requires
        0 <= i <= lines.len(),
        forall|k: int|
            0 <= k < lines.len() && (#[trigger] lines[k]).len() > 0 && lines[k][0] == '+'
                ==> spec_parse_token(lines[k].skip(1)) is Some,
        spec_balance(lines, i, lines.len() as int, stack_texts(st.stack)) == Some(
            Seq::<Seq<char>>::empty(),
        ),
    ensures
        spec_run(cfg, lines, i, st).1 is None,
        spec_run(cfg, lines, i, st).0.stack.len() == 0,
    decreases lines.len() - i,
{
    let open = stack_texts(st.stack);
    if i >= lines.len() {
        assert(spec_balance(lines, i, lines.len() as int, open) == Some(open));
        assert(st.stack.len() == open.len());
    } else {
        let l = lines[i];
        assert(l.len() > 0 && (l[0] == '+' || l[0] == '-'));
        if l[0] == '+' {
            assert(spec_parse_token(l.skip(1)) is Some);
            match spec_step(cfg, st, l) {
                Err(k) => {
                    if cfg.patterns.len() == 0 {
                        assert(spec_push_full(cfg, st, l.skip(1)) is Some);
                    } else {
                        assert(spec_push_only(cfg, st, l.skip(1)) is Some);
                    }
                    assert(false);
                },
                Ok(st2) => {
                    assert(stack_texts(st2.stack) =~= open.push(l.skip(1))) by {
                        if cfg.patterns.len() > 0 {
                            lemma_backfill_props(st.stack, st.tree, 0, 0);
                        }
                    }
                    lemma_balanced_run(cfg, lines, i + 1, st2);
                },
            }
        } else {
            assert(open.len() > 0 && open.last() == l.skip(1));
            assert(st.stack.last().line == open.last());
            match spec_step(cfg, st, l) {
                Err(k) => {
                    assert(false);
                },
                Ok(st2) => {
                    assert(stack_texts(st2.stack) =~= open.drop_last());
                    lemma_balanced_run(cfg, lines, i + 1, st2);
                },
            }
        }
    }
}

/// For every well-formed, balanced log the parse pass succeeds: no fatal
/// error is raised and the builder's stack is empty at the end of input.
pub proof fn lemma_balanced_build_succeeds(cfg: BuildConfig, lines: Seq<Seq<char>>, t: TreeModel)
    requires
        wf_balanced(lines),
    ensures
        spec_run(cfg, lines, 0, init_build_state(t)).1 is None,
        spec_run(cfg, lines, 0, init_build_state(t)).0.stack.len() == 0,
{
    assert(stack_texts(init_build_state(t).stack) =~= Seq::<Seq<char>>::empty());
    lemma_balanced_run(cfg, lines, 0, init_build_state(t));
}

/// The invariant the depth/size mode maintains: a well-formed tree within
/// the size budget, every row within the depth bound, every materialized
/// frame pointing at a row no deeper than one past its stack position, rows
/// of materialized frames increasing up the stack, and unmaterialized
/// frames occurring only past the depth bound or the size budget.
#[verifier::opaque]
pub open spec fn full_mode_inv(cfg: BuildConfig, st: BuildState) -> bool {
    &&& crate::tree::wf_rows(st.tree.rows)
    &&& st.tree.rows.len() <= cfg.max_size
    &&& forall|r: int|
        0 <= r < st.tree.rows.len() ==> (#[trigger] st.tree.rows[r]).depth <= cfg.depth
    &&& forall|k: int|
        0 <= k < st.stack.len() ==> match (#[trigger] st.stack[k]).row {
            Some(p) => 0 <= p < st.tree.rows.len() && st.tree.rows[p].depth <= k + 1,
            None => k >= cfg.depth || st.tree.rows.len() >= cfg.max_size,
        }
    &&& forall|k1: int, k2: int|
        0 <= k1 < k2 < st.stack.len() && (#[trigger] st.stack[k1]).row is Some && (
        #[trigger] st.stack[k2]).row is Some ==> st.stack[k1].row->0 < st.stack[k2].row->0
}

/// The materializing case of a depth/size-mode push over a nonempty tree
/// keeps the invariant.
#[verifier::rlimit(100)]
proof fn lemma_full_insert_step(cfg: BuildConfig, st: BuildState, l: Seq<char>)
    requires
        cfg.patterns.len() == 0,
        full_mode_inv(cfg, st),
        spec_step(cfg, st, l) is Ok,
        l.len() > 0,
        l[0] == '+',
        st.stack.len() < cfg.depth,
        0 < st.tree.rows.len() < cfg.max_size,
    ensures
        full_mode_inv(cfg, spec_step(cfg, st, l)->Ok_0),
{
    reveal(full_mode_inv);
    let st2 = spec_step(cfg, st, l)->Ok_0;
    let body = l.skip(1);
    
    let k = st.stack.len() as int;
    let rec = spec_parse_token(body)->0;
    let parent = if k == 0 {
        0
    } else {
        frame_row_or_zero(st.stack.last())
    };
    let orows = st.tree.rows;
    if k > 0 {
        assert(st.stack.last().row is Some);
    }
    assert(0 <= parent < orows.len());
    let d0 = orows[parent].depth;
    let e = crate::tree::subtree_end(orows, parent);
    crate::tree::lemma_scan_end(orows, d0, (parent + 1) as nat);
    crate::tree::lemma_insert_rows_wf(st.tree, rec, parent);
    assert(d0 <= cfg.depth);
    if k > 0 {
        assert(d0 <= k);
    } else {
        assert(d0 == 0);
    }
    let nrows = st2.tree.rows;
    assert(nrows == orows.insert(e, RowModel { record: rec, depth: (d0 + 1) as nat }));
    assert forall|r: int| 0 <= r < nrows.len() implies (#[trigger] nrows[r]).depth
        <= cfg.depth by {
        if r < e {
            assert(nrows[r] == orows[r]);
        } else if r > e {
            assert(nrows[r] == orows[r - 1]);
        }
    }
    assert forall|j: int| 0 <= j < st2.stack.len() implies match (#[trigger] st2.stack[
    j]).row {
        Some(p) => 0 <= p < nrows.len() && nrows[p].depth <= j + 1,
        None => j >= cfg.depth || nrows.len() >= cfg.max_size,
    } by {
        if j < k {
            assert(st2.stack[j] == st.stack[j]);
            match st.stack[j].row {
                Some(p) => {
                    if k > 0 && st.stack[j].row is Some {
                        if j < k - 1 {
                            assert(p < st.stack[k - 1].row->0);
                        }
                    }
                    assert(p < e);
                    assert(nrows[p] == orows[p]);
                },
                None => {},
            }
        } else {
            assert(st2.stack[j].row == Some(e));
            assert(nrows[e] == RowModel { record: rec, depth: (d0 + 1) as nat });
        }
    }
    assert forall|k1: int, k2: int|
        0 <= k1 < k2 < st2.stack.len() && (#[trigger] st2.stack[k1]).row is Some && (
        #[trigger] st2.stack[k2]).row is Some implies st2.stack[k1].row->0 < st2.stack[
        k2].row->0 by {
        if k2 < k {
            assert(st2.stack[k1] == st.stack[k1]);
            assert(st2.stack[k2] == st.stack[k2]);
        } else {
            assert(st2.stack[k1] == st.stack[k1]);
            assert(st2.stack[k2].row == Some(e));
            if k1 < k - 1 {
                assert(st.stack[k1].row->0 < st.stack[k - 1].row->0);
            }
        }
    }
}

#[verifier::rlimit(100)]
proof fn lemma_full_inv_step(cfg: BuildConfig, st: BuildState, l: Seq<char>)
    requires
        cfg.patterns.len() == 0,
        full_mode_inv(cfg, st),
        spec_step(cfg, st, l) is Ok,
    ensures
        full_mode_inv(cfg, spec_step(cfg, st, l)->Ok_0),
{
    reveal(full_mode_inv);
    let st2 = spec_step(cfg, st, l)->Ok_0;
    if l[0] == '+' {
        let body = l.skip(1);
        let k = st.stack.len() as int;
        if k < cfg.depth && st.tree.rows.len() < cfg.max_size {
            let rec = spec_parse_token(body)->0;
            let parent = if k == 0 {
                0
            } else {
                frame_row_or_zero(st.stack.last())
            };
            let orows = st.tree.rows;
            if orows.len() == 0 {
                assert(st2.tree.rows =~= seq![RowModel { record: rec, depth: 0 }]);
                assert(full_mode_inv(cfg, st2)) by {
                    assert forall|j: int| 0 <= j < st2.stack.len() implies match (
                    #[trigger] st2.stack[j]).row {
                        Some(p) => 0 <= p < st2.tree.rows.len() && st2.tree.rows[p].depth <= j + 1,
                        None => j >= cfg.depth || st2.tree.rows.len() >= cfg.max_size,
                    } by {
                        if j < k {
                            assert(st2.stack[j] == st.stack[j]);
                        }
                    }
                }
            } else {
                lemma_full_insert_step(cfg, st, l);
            }
        } else {
            assert(st2.tree == st.tree);
            assert forall|j: int| 0 <= j < st2.stack.len() implies match (#[trigger] st2.stack[
            j]).row {
                Some(p) => 0 <= p < st2.tree.rows.len() && st2.tree.rows[p].depth <= j + 1,
                None => j >= cfg.depth || st2.tree.rows.len() >= cfg.max_size,
            } by {
                if j < k {
                    assert(st2.stack[j] == st.stack[j]);
                }
            }
            assert forall|k1: int, k2: int|
                0 <= k1 < k2 < st2.stack.len() && (#[trigger] st2.stack[k1]).row is Some && (
                #[trigger] st2.stack[k2]).row is Some implies st2.stack[k1].row->0 < st2.stack[
                k2].row->0 by {
                assert(st2.stack[k1] == st.stack[k1]);
                if k2 < k {
                    assert(st2.stack[k2] == st.stack[k2]);
                }
            }
        }
    } else {
        assert(st2.tree == st.tree);
        assert(st2.stack =~= st.stack.drop_last());
        assert forall|j: int| 0 <= j < st2.stack.len() implies match (#[trigger] st2.stack[
        j]).row {
            Some(p) => 0 <= p < st2.tree.rows.len() && st2.tree.rows[p].depth <= j + 1,
            None => j >= cfg.depth || st2.tree.rows.len() >= cfg.max_size,
        } by {
            assert(st2.stack[j] == st.stack[j]);
        }
        assert forall|k1: int, k2: int|
            0 <= k1 < k2 < st2.stack.len() && (#[trigger] st2.stack[k1]).row is Some && (
            #[trigger] st2.stack[k2]).row is Some implies st2.stack[k1].row->0 < st2.stack[
            k2].row->0 by {
            assert(st2.stack[k1] == st.stack[k1]);
            assert(st2.stack[k2] == st.stack[k2]);
        }
    }
}

proof fn lemma_full_run_inv(cfg: BuildConfig, lines: Seq<Seq<char>>, i: int, st: BuildState)
    requires
        cfg.patterns.len() == 0,
        full_mode_inv(cfg, st),
    ensures
        full_mode_inv(cfg, spec_run(cfg, lines, i, st).0),
    decreases lines.len() - i,
{
    if 0 <= i < lines.len() {
        match spec_step(cfg, st, lines[i]) {
            Err(_) => {
            },
            Ok(st2) => {
                lemma_full_inv_step(cfg, st, lines[i]);
                lemma_full_run_inv(cfg, lines, i + 1, st2);
            },
        }
    }
}

/// Depth/size mode: however long the log, no materialized node lies deeper
/// than the configured depth, and the number of materialized nodes never
/// exceeds the size budget — whether or not the pass completes.
pub proof fn lemma_full_mode_bounds(cfg: BuildConfig, lines: Seq<Seq<char>>, t: TreeModel)
    requires
        cfg.patterns.len() == 0,
        t.rows.len() == 0,
    ensures
        ({
            let run = spec_run(cfg, lines, 0, init_build_state(t));
            &&& run.0.tree.rows.len() <= cfg.max_size
            &&& forall|r: int|
                0 <= r < run.0.tree.rows.len() ==> (#[trigger] run.0.tree.rows[r]).depth
                    <= cfg.depth
        }),
{
    reveal(full_mode_inv);
    assert(full_mode_inv(cfg, init_build_state(t)));
    lemma_full_run_inv(cfg, lines, 0, init_build_state(t));
}

proof fn lemma_no_relevant_run(cfg: BuildConfig, lines: Seq<Seq<char>>, i: int, st: BuildState)
    requires
        cfg.patterns.len() > 0,
        st.tree.rows.len() == 0,
        forall|k: int| 0 <= k < st.stack.len() ==> !(#[trigger] st.stack[k]).matched,
        forall|k: int|
            0 <= k < lines.len() && (#[trigger] lines[k]).len() > 0 && lines[k][0] == '+'
                ==> !spec_line_matches(cfg.patterns, lines[k].skip(1)),
    ensures
        spec_run(cfg, lines, i, st).0.tree.rows.len() == 0,
    decreases lines.len() - i,
{
    if 0 <= i < lines.len() {
        match spec_step(cfg, st, lines[i]) {
            Err(_) => {
            },
            Ok(st2) => {
                let l = lines[i];
                if l[0] == '+' {
                    assert(!spec_line_matches(cfg.patterns, l.skip(1)));
                    assert(!spec_window_hit(cfg, st.stack));
                    assert(st2.tree == st.tree);
                    assert(st2.stack.drop_last() =~= st.stack);
                    assert forall|k: int| 0 <= k < st2.stack.len() implies !(#[trigger] st2.stack[
                        k
                    ]).matched by {
                        if k < st.stack.len() {
                            assert(st2.stack[k] == st.stack[k]);
                        }
                    }
                } else {
                    assert forall|k: int| 0 <= k < st2.stack.len() implies !(#[trigger] st2.stack[
                        k
                    ]).matched by {
                        assert(st2.stack[k] == st.stack[k]);
                    }
                }
                lemma_no_relevant_run(cfg, lines, i + 1, st2);
            },
        }
    }
}

/// Pattern mode materializes nodes only on account of relevance matches: a
/// log none of whose enter lines matches any pattern builds an empty tree,
/// whether or not the pass completes.
pub proof fn lemma_no_relevant_line_no_nodes(cfg: BuildConfig, lines: Seq<Seq<char>>, t: TreeModel)
    requires
        cfg.patterns.len() > 0,
        t.rows.len() == 0,
        forall|k: int|
            0 <= k < lines.len() && (#[trigger] lines[k]).len() > 0 && lines[k][0] == '+'
                ==> !spec_line_matches(cfg.patterns, lines[k].skip(1)),
    ensures
        spec_run(cfg, lines, 0, init_build_state(t)).0.tree.rows.len() == 0,
{
    lemma_no_relevant_run(cfg, lines, 0, init_build_state(t));
}

/// Whether the record of a row matches one of the relevance patterns.
pub open spec fn row_relevant(patterns: Seq<Seq<char>>, r: RowModel) -> bool {
    exists|k: int| 0 <= k < patterns.len() && re_match(#[trigger] patterns[k], spec_render(r.record))
}

/// Whether row `r` has no child: it is the last row, or the next row is no
/// deeper.
pub open spec fn is_leaf(rows: Seq<RowModel>, r: int) -> bool {
    r == rows.len() - 1 || rows[r + 1].depth <= rows[r].depth
}

/// Whether some strict ancestor of row `r`, at most `w` levels above it,
/// matches a relevance pattern.
pub open spec fn has_relevant_ancestor(
    patterns: Seq<Seq<char>>,
    rows: Seq<RowModel>,
    r: int,
    w: nat,
) -> bool {
    exists|k: int|
        0 <= k < r && r < crate::tree::subtree_end(rows, k) && rows[r].depth - (
        #[trigger] rows[k]).depth <= w && row_relevant(patterns, rows[k])
}

/// Whether row `r` satisfies the relevance law: a leaf matches a pattern
/// itself or sits within the lookback window of an ancestor that does.
pub open spec fn row_law(cfg: BuildConfig, rows: Seq<RowModel>, r: int) -> bool {
    is_leaf(rows, r) && !row_relevant(cfg.patterns, rows[r]) ==> has_relevant_ancestor(
        cfg.patterns,
        rows,
        r,
        cfg.depth,
    )
}

/// The relevance law for every row but the last.
pub open spec fn law_but_last(cfg: BuildConfig, rows: Seq<RowModel>) -> bool {
    forall|r: int| 0 <= r < rows.len() - 1 ==> #[trigger] row_law(cfg, rows, r)
}

/// The relevance law for every row.
pub open spec fn leaf_law(cfg: BuildConfig, rows: Seq<RowModel>) -> bool {
    forall|r: int| 0 <= r < rows.len() ==> #[trigger] row_law(cfg, rows, r)
}

/// How appending a row moves the end of an existing subtree: a subtree that
/// ended early is unchanged, and one that reached the end grows exactly
/// when the new row is deeper.
pub proof fn lemma_scan_end_push(rows: Seq<RowModel>, x: RowModel, d: nat, j: nat)
    requires
        j <= rows.len(),
    ensures
        crate::tree::scan_end(rows, d, j) < rows.len() ==> crate::tree::scan_end(
            rows.push(x),
            d,
            j,
        ) == crate::tree::scan_end(rows, d, j),
        crate::tree::scan_end(rows, d, j) == rows.len() && x.depth > d ==> crate::tree::scan_end(
            rows.push(x),
            d,
            j,
        ) == rows.len() + 1,
        crate::tree::scan_end(rows, d, j) == rows.len() && x.depth <= d ==> crate::tree::scan_end(
            rows.push(x),
            d,
            j,
        ) == rows.len(),
    decreases rows.len() - j,
{
    crate::tree::lemma_scan_end(rows, d, j);
    if j >= rows.len() {
        assert(j == rows.len());
        assert(rows.push(x)[j as int] == x);
        if x.depth > d {
            assert(crate::tree::scan_end(rows.push(x), d, (j + 1) as nat) == rows.len() + 1);
        }
    } else if rows[j as int].depth <= d {
        assert(rows.push(x)[j as int] == rows[j as int]);
    } else {
        assert(rows.push(x)[j as int] == rows[j as int]);
        lemma_scan_end_push(rows, x, d, (j + 1) as nat);
    }
}

/// In a single-rooted forest the root's subtree is the whole row list.
pub proof fn lemma_root_subtree(rows: Seq<RowModel>)
    requires
        crate::tree::wf_rows(rows),
        rows.len() > 0,
        forall|r: int| 1 <= r < rows.len() ==> (#[trigger] rows[r]).depth >= 1,
    ensures
        crate::tree::subtree_end(rows, 0) == rows.len(),
{
    crate::tree::lemma_scan_end(rows, rows[0].depth, 1);
    let e = crate::tree::subtree_end(rows, 0);
    if e < rows.len() {
        assert(rows[e].depth <= rows[0].depth);
        assert(rows[0].depth <= 0);
        assert(rows[e].depth >= 1);
        assert(false);
    }
}

/// Appending a row preserves every existing relevant-ancestor witness.
pub proof fn lemma_anc_push(
    patterns: Seq<Seq<char>>,
    rows: Seq<RowModel>,
    x: RowModel,
    r: int,
    w: nat,
)
    requires
        0 <= r < rows.len(),
        has_relevant_ancestor(patterns, rows, r, w),
    ensures
        has_relevant_ancestor(patterns, rows.push(x), r, w),
{
    let k = choose|k: int|
        0 <= k < r && r < crate::tree::subtree_end(rows, k) && rows[r].depth - (
        #[trigger] rows[k]).depth <= w && row_relevant(patterns, rows[k]);
    let d = rows[k].depth;
    crate::tree::lemma_scan_end(rows, d, (k + 1) as nat);
    lemma_scan_end_push(rows, x, d, (k + 1) as nat);
    assert(rows.push(x)[k] == rows[k]);
    assert(rows.push(x)[r] == rows[r]);
    assert(crate::tree::subtree_end(rows.push(x), k) == crate::tree::scan_end(
        rows.push(x),
        d,
        (k + 1) as nat,
    ));
    assert(crate::tree::subtree_end(rows, k) == crate::tree::scan_end(rows, d, (k + 1) as nat));
    assert(r < crate::tree::subtree_end(rows.push(x), k));
}

/// The stack-facing invariant of pattern mode: every frame's line parses
/// and its match flag is its line's verdict; materialized frames form a
/// prefix of the stack; their rows exist, hold their line's record, reach
/// to the end of the row list with their subtrees, and deepen one level per
/// frame; a matched frame stays unmaterialized only past the size budget;
/// and the forest has a single root.
#[verifier::opaque]
pub open spec fn pm_stack_inv(cfg: BuildConfig, stack: Seq<FrameModel>, rows: Seq<RowModel>) -> bool {
    &&& crate::tree::wf_rows(rows)
    &&& forall|r: int| 1 <= r < rows.len() ==> (#[trigger] rows[r]).depth >= 1
    &&& forall|j: int|
        0 <= j < stack.len() ==> spec_parse_token((#[trigger] stack[j]).line) is Some
    &&& forall|j: int|
        0 <= j < stack.len() ==> (#[trigger] stack[j]).matched == spec_line_matches(
            cfg.patterns,
            stack[j].line,
        )
    &&& forall|j1: int, j2: int|
        0 <= j1 < j2 < stack.len() && (#[trigger] stack[j2]).row is Some ==> (
        #[trigger] stack[j1]).row is Some
    &&& forall|j: int|
        0 <= j < stack.len() && (#[trigger] stack[j]).row is Some ==> {
            let p = stack[j].row->0;
            &&& 0 <= p < rows.len()
            &&& rows[p].record == spec_parse_token(stack[j].line)->0
            &&& crate::tree::subtree_end(rows, p) == rows.len()
            &&& (j > 0 ==> stack[j - 1].row is Some && rows[p].depth == rows[stack[j
                - 1].row->0].depth + 1)
        }
    &&& forall|j: int|
        0 <= j < stack.len() && (#[trigger] stack[j]).matched && stack[j].row is None
            ==> rows.len() >= cfg.max_size
}

/// Materialized frames deepen one level per stack position.
proof fn lemma_frame_depth_chain(
    cfg: BuildConfig,
    stack: Seq<FrameModel>,
    rows: Seq<RowModel>,
    j1: int,
    j2: int,
)
    requires
        pm_stack_inv(cfg, stack, rows),
        0 <= j1 <= j2 < stack.len(),
        stack[j2].row is Some,
    ensures
        stack[j1].row is Some,
        rows[stack[j2].row->0].depth - rows[stack[j1].row->0].depth == j2 - j1,
    decreases j2 - j1,
{
    reveal(pm_stack_inv);
    if j2 > j1 {
        lemma_frame_depth_chain(cfg, stack, rows, j1, j2 - 1);
    }
}

/// Materializing one unmaterialized frame appends its row at the end and
/// keeps every pattern-mode invariant, leaving only the frames above it
/// unmaterialized.
#[verifier::rlimit(100)]
proof fn lemma_materialize_one(
    cfg: BuildConfig,
    stack: Seq<FrameModel>,
    t: TreeModel,
    k: int,
    prev: int,
)
    requires
        pm_stack_inv(cfg, stack, t.rows),
        0 <= k < stack.len(),
        forall|j: int| 0 <= j < k ==> (#[trigger] stack[j]).row is Some,
        k > 0 ==> stack[k - 1].row == Some(prev),
        k == 0 ==> prev == 0,
        stack[k].row is None,
    ensures
        ({
            let pos = spec_insert_pos(t, prev);
            let t2 = spec_insert(t, spec_parse_token(stack[k].line)->0, prev);
            let stack2 = stack.update(
                k,
                FrameModel { line: stack[k].line, row: Some(pos), matched: stack[k].matched },
            );
            &&& pos == t.rows.len()
            &&& t2.rows.len() == t.rows.len() + 1
            &&& pm_stack_inv(cfg, stack2, t2.rows)
            &&& forall|j: int| 0 <= j < k + 1 ==> (#[trigger] stack2[j]).row is Some
            &&& forall|j: int| k + 1 <= j < stack2.len() ==> (#[trigger] stack2[j]).row is None
            &&& stack2[k].row == Some(pos)
            &&& pos == t2.rows.len() - 1
            &&& t2.sel == t.sel
        }),
{
    reveal(pm_stack_inv);
    let rec = spec_parse_token(stack[k].line)->0;
    let pos = spec_insert_pos(t, prev);
    let orows = t.rows;
    let t2 = spec_insert(t, rec, prev);
    let newdepth: nat = if orows.len() == 0 {
        0
    } else {
        (orows[prev].depth + 1) as nat
    };
    let x = RowModel { record: rec, depth: newdepth };
    let stack2 = stack.update(
        k,
        FrameModel { line: stack[k].line, row: Some(pos), matched: stack[k].matched },
    );
    crate::tree::lemma_insert_rows_wf(t, rec, prev);
    if orows.len() == 0 {
        assert(k == 0);
        assert(pos == 0);
        assert(t2.rows =~= orows.push(x));
    } else {
        if k > 0 {
        } else {
            lemma_root_subtree(orows);
        }
        assert(crate::tree::subtree_end(orows, prev) == orows.len());
        assert(pos == orows.len());
        assert(t2.rows =~= orows.push(x));
    }
    let nrows = orows.push(x);
    assert(t2.rows == nrows);
    assert forall|j: int| k < j < stack.len() implies (#[trigger] stack[j]).row is None by {
        if stack[j].row is Some {
            assert(stack[k].row is Some);
        }
    }
    assert forall|j: int| 0 <= j < k implies x.depth > orows[(#[trigger] stack[
    j]).row->0].depth by {
        lemma_frame_depth_chain(cfg, stack, orows, j, k - 1);
    }
    assert(pm_stack_inv(cfg, stack2, nrows)) by {
        assert forall|r: int| 1 <= r < nrows.len() implies (#[trigger] nrows[r]).depth >= 1 by {
            if r < orows.len() {
                assert(nrows[r] == orows[r]);
            }
        }
        assert forall|j: int|
            0 <= j < stack2.len() && (#[trigger] stack2[j]).row is Some implies {
            let p2 = stack2[j].row->0;
            &&& 0 <= p2 < nrows.len()
            &&& nrows[p2].record == spec_parse_token(stack2[j].line)->0
            &&& crate::tree::subtree_end(nrows, p2) == nrows.len()
            &&& (j > 0 ==> stack2[j - 1].row is Some && nrows[p2].depth == nrows[stack2[j
                - 1].row->0].depth + 1)
        } by {
            if j < k {
                let p2 = stack2[j].row->0;
                assert(stack2[j] == stack[j]);
                assert(nrows[p2] == orows[p2]);
                lemma_scan_end_push(orows, x, orows[p2].depth, (p2 + 1) as nat);
                assert(crate::tree::subtree_end(nrows, p2) == nrows.len());
                if j > 0 {
                    assert(stack2[j - 1] == stack[j - 1]);
                    assert(nrows[stack[j - 1].row->0] == orows[stack[j - 1].row->0]);
                }
            } else if j == k {
                assert(stack2[k].row == Some(pos));
                assert(nrows[pos as int] == x);
                assert(crate::tree::scan_end(nrows, x.depth, (pos + 1) as nat) == nrows.len());
                if k > 0 {
                    assert(stack2[k - 1] == stack[k - 1]);
                    assert(nrows[prev] == orows[prev]);
                }
            } else {
                assert(stack2[j] == stack[j]);
                assert(stack[j].row is None);
            }
        }
    }
}

/// Materializing one unmaterialized frame keeps the relevance law for
/// every row but the new last one: the frame that was about to receive a
/// child ceases to be a leaf, and every other row keeps its witness.
#[verifier::rlimit(100)]
proof fn lemma_materialize_one_law(
    cfg: BuildConfig,
    stack: Seq<FrameModel>,
    t: TreeModel,
    k: int,
    prev: int,
)
    requires
        pm_stack_inv(cfg, stack, t.rows),
        0 <= k < stack.len(),
        forall|j: int| 0 <= j < k ==> (#[trigger] stack[j]).row is Some,
        k > 0 ==> stack[k - 1].row == Some(prev),
        k == 0 ==> prev == 0,
        stack[k].row is None,
        law_but_last(cfg, t.rows),
        t.rows.len() == 0 || row_law(cfg, t.rows, t.rows.len() - 1) || (k > 0 && prev
            == t.rows.len() - 1 && (forall|j: int|
            k <= j < stack.len() ==> (#[trigger] stack[j]).row is None)),
    ensures
        law_but_last(cfg, spec_insert(t, spec_parse_token(stack[k].line)->0, prev).rows),
{
    reveal(pm_stack_inv);
    lemma_materialize_one(cfg, stack, t, k, prev);
    let rec = spec_parse_token(stack[k].line)->0;
    let orows = t.rows;
    let t2 = spec_insert(t, rec, prev);
    let newdepth: nat = if orows.len() == 0 {
        0
    } else {
        (orows[prev].depth + 1) as nat
    };
    let x = RowModel { record: rec, depth: newdepth };
    assert(t2.rows =~= orows.push(x));
    let nrows = orows.push(x);
    assert(law_but_last(cfg, nrows)) by {
        assert forall|r: int| 0 <= r < nrows.len() - 1 implies #[trigger] row_law(
            cfg,
            nrows,
            r,
        ) by {
            if r < orows.len() - 1 {
                assert(row_law(cfg, orows, r));
                assert(nrows[r] == orows[r]);
                assert(nrows[r + 1] == orows[r + 1]);
                if is_leaf(nrows, r) && !row_relevant(cfg.patterns, nrows[r]) {
                    lemma_anc_push(cfg.patterns, orows, x, r, cfg.depth);
                }
            } else if r == orows.len() - 1 {
                if row_law(cfg, orows, r) {
                    assert(nrows[r] == orows[r]);
                    if is_leaf(nrows, r) && !row_relevant(cfg.patterns, nrows[r]) {
                        assert(is_leaf(orows, r));
                        lemma_anc_push(cfg.patterns, orows, x, r, cfg.depth);
                    }
                } else {
                    assert(prev == orows.len() - 1);
                    assert(x.depth > orows[prev].depth);
                    assert(nrows[r + 1] == x);
                    assert(!is_leaf(nrows, r));
                }
            }
        }
    }
}


#[verifier::rlimit(100)]
proof fn lemma_backfill_invs(
    cfg: BuildConfig,
    stack: Seq<FrameModel>,
    t: TreeModel,
    k: int,
    prev: int,
)
    requires
        pm_stack_inv(cfg, stack, t.rows),
        0 <= k <= stack.len(),
        forall|j: int| 0 <= j < k ==> (#[trigger] stack[j]).row is Some,
        k > 0 ==> stack[k - 1].row == Some(prev),
        k == 0 ==> prev == 0,
    ensures
        ({
            let r = spec_backfill(stack, t, k, prev);
            &&& pm_stack_inv(cfg, r.0, r.1.rows)
            &&& forall|j: int| 0 <= j < r.0.len() ==> (#[trigger] r.0[j]).row is Some
            &&& r.0.len() == stack.len()
            &&& r.1.rows.len() >= t.rows.len()
            &&& r.1.sel == t.sel
        }),
    decreases stack.len() - k,
{
    if 0 <= k < stack.len() {
        match stack[k].row {
            Some(p) => {
                lemma_backfill_invs(cfg, stack, t, k + 1, p);
            },
            None => {
                let rec = spec_parse_token(stack[k].line)->0;
                let pos = spec_insert_pos(t, prev);
                let t2 = spec_insert(t, rec, prev);
                let stack2 = stack.update(
                    k,
                    FrameModel { line: stack[k].line, row: Some(pos), matched: stack[k].matched },
                );
                lemma_materialize_one(cfg, stack, t, k, prev);
                lemma_backfill_invs(cfg, stack2, t2, k + 1, pos);
                assert(spec_backfill(stack, t, k, prev) == spec_backfill(stack2, t2, k + 1, pos));
            },
        }
    }
}

/// Backfilling changes no frame's token or match flag.
proof fn lemma_backfill_lines(
    cfg: BuildConfig,
    stack: Seq<FrameModel>,
    t: TreeModel,
    k: int,
    prev: int,
)
    requires
        pm_stack_inv(cfg, stack, t.rows),
        0 <= k <= stack.len(),
        forall|j: int| 0 <= j < k ==> (#[trigger] stack[j]).row is Some,
        k > 0 ==> stack[k - 1].row == Some(prev),
        k == 0 ==> prev == 0,
    ensures
        ({
            let r = spec_backfill(stack, t, k, prev);
            &&& r.0.len() == stack.len()
            &&& forall|j: int|
                0 <= j < stack.len() ==> (#[trigger] r.0[j]).line == stack[j].line
                    && r.0[j].matched == stack[j].matched
        }),
    decreases stack.len() - k,
{
    if 0 <= k < stack.len() {
        match stack[k].row {
            Some(p) => {
                lemma_backfill_lines(cfg, stack, t, k + 1, p);
            },
            None => {
                let rec = spec_parse_token(stack[k].line)->0;
                let pos = spec_insert_pos(t, prev);
                let t2 = spec_insert(t, rec, prev);
                let stack2 = stack.update(
                    k,
                    FrameModel { line: stack[k].line, row: Some(pos), matched: stack[k].matched },
                );
                lemma_materialize_one(cfg, stack, t, k, prev);
                lemma_backfill_lines(cfg, stack2, t2, k + 1, pos);
                let r2 = spec_backfill(stack2, t2, k + 1, pos);
                assert(spec_backfill(stack, t, k, prev) == r2);
                assert forall|j: int| 0 <= j < stack.len() implies (#[trigger] r2.0[j]).line
                    == stack[j].line && r2.0[j].matched == stack[j].matched by {
                    assert(r2.0[j].line == stack2[j].line && r2.0[j].matched == stack2[j].matched);
                    if j != k {
                        assert(stack2[j] == stack[j]);
                    }
                }
            },
        }
    }
}

#[verifier::rlimit(100)]
proof fn lemma_backfill_law(
    cfg: BuildConfig,
    stack: Seq<FrameModel>,
    t: TreeModel,
    k: int,
    prev: int,
)
    requires
        pm_stack_inv(cfg, stack, t.rows),
        0 <= k <= stack.len(),
        forall|j: int| 0 <= j < k ==> (#[trigger] stack[j]).row is Some,
        k > 0 ==> stack[k - 1].row == Some(prev),
        k == 0 ==> prev == 0,
        law_but_last(cfg, t.rows),
        t.rows.len() == 0 || row_law(cfg, t.rows, t.rows.len() - 1) || (k > 0 && prev
            == t.rows.len() - 1 && (forall|j: int|
            k <= j < stack.len() ==> (#[trigger] stack[j]).row is None)),
    ensures
        ({
            let r = spec_backfill(stack, t, k, prev);
            &&& law_but_last(cfg, r.1.rows)
            &&& (r.1.rows.len() == 0 || row_law(cfg, r.1.rows, r.1.rows.len() - 1) || (stack.len()
                > 0 && r.0.last().row is Some && r.0.last().row->0 == r.1.rows.len() - 1))
        }),
    decreases stack.len() - k,
{
    if 0 <= k < stack.len() {
        match stack[k].row {
            Some(p) => {
                lemma_backfill_law(cfg, stack, t, k + 1, p);
            },
            None => {
                let rec = spec_parse_token(stack[k].line)->0;
                let pos = spec_insert_pos(t, prev);
                let t2 = spec_insert(t, rec, prev);
                let stack2 = stack.update(
                    k,
                    FrameModel { line: stack[k].line, row: Some(pos), matched: stack[k].matched },
                );
                lemma_materialize_one(cfg, stack, t, k, prev);
                lemma_materialize_one_law(cfg, stack, t, k, prev);
                lemma_backfill_law(cfg, stack2, t2, k + 1, pos);
                assert(spec_backfill(stack, t, k, prev) == spec_backfill(stack2, t2, k + 1, pos));
            },
        }
    } else {
        if t.rows.len() > 0 && !row_law(cfg, t.rows, t.rows.len() - 1) {
            assert(k > 0 && prev == t.rows.len() - 1);
            assert(stack[k - 1].row == Some(prev));
        }
    }
}

/// The whole pattern-mode invariant: the stack-facing conditions plus the
/// relevance law for every row.
pub open spec fn pattern_mode_inv(cfg: BuildConfig, st: BuildState) -> bool {
    pm_stack_inv(cfg, st.stack, st.tree.rows) && leaf_law(cfg, st.tree.rows)
}

/// Appending a newly materialized frame and its row at the end of the
/// stack and of the row list keeps the stack-facing invariant.
#[verifier::rlimit(100)]
proof fn lemma_append_frame_pm(
    cfg: BuildConfig,
    stk: Seq<FrameModel>,
    mid: Seq<RowModel>,
    body: Seq<char>,
    matched: bool,
    parent: int,
    x: RowModel,
)
    requires
        pm_stack_inv(cfg, stk, mid),
        forall|j: int| 0 <= j < stk.len() ==> (#[trigger] stk[j]).row is Some,
        stk.len() > 0 ==> stk.last().row == Some(parent),
        stk.len() == 0 ==> parent == 0,
        mid.len() > 0 ==> 0 <= parent < mid.len(),
        x.record == spec_parse_token(body)->0,
        x.depth == (if mid.len() == 0 {
            0nat
        } else {
            (mid[parent].depth + 1) as nat
        }),
        crate::tree::wf_rows(mid.push(x)),
        spec_parse_token(body) is Some,
        matched == spec_line_matches(cfg.patterns, body),
    ensures
        pm_stack_inv(
            cfg,
            stk.push(FrameModel { line: body, row: Some(mid.len() as int), matched }),
            mid.push(x),
        ),
{
    reveal(pm_stack_inv);
    let s0 = stk.len() as int;
    let pos = mid.len() as int;
    let stack2 = stk.push(FrameModel { line: body, row: Some(pos), matched });
    let nrows = mid.push(x);
    assert forall|j: int| 0 <= j < s0 implies x.depth > mid[(#[trigger] stk[
    j]).row->0].depth by {
        lemma_frame_depth_chain(cfg, stk, mid, j, s0 - 1);
    }
    assert forall|r2: int| 1 <= r2 < nrows.len() implies (#[trigger] nrows[r2]).depth >= 1 by {
        if r2 < mid.len() {
            assert(nrows[r2] == mid[r2]);
        }
    }
    assert forall|j: int|
        0 <= j < stack2.len() && (#[trigger] stack2[j]).row is Some implies {
        let p = stack2[j].row->0;
        &&& 0 <= p < nrows.len()
        &&& nrows[p].record == spec_parse_token(stack2[j].line)->0
        &&& crate::tree::subtree_end(nrows, p) == nrows.len()
        &&& (j > 0 ==> stack2[j - 1].row is Some && nrows[p].depth == nrows[stack2[j
            - 1].row->0].depth + 1)
    } by {
        if j < s0 {
            let p = stack2[j].row->0;
            assert(stack2[j] == stk[j]);
            assert(nrows[p] == mid[p]);
            lemma_scan_end_push(mid, x, mid[p].depth, (p + 1) as nat);
            if j > 0 {
                assert(stack2[j - 1] == stk[j - 1]);
                assert(nrows[stk[j - 1].row->0] == mid[stk[j - 1].row->0]);
            }
        } else {
            assert(stack2[j].row == Some(pos));
            assert(nrows[pos] == x);
            assert(crate::tree::scan_end(nrows, x.depth, (pos + 1) as nat) == nrows.len());
            if j > 0 {
                assert(stack2[j - 1] == stk[j - 1]);
                assert(stk[j - 1].row is Some);
                assert(stk[j - 1].row->0 == parent);
                assert(nrows[parent] == mid[parent]);
            }
        }
    }
}

/// The insert branch of a pattern-mode push keeps the stack-facing
/// invariant: after the backfill, the new node is appended at the end, one
/// level under the top frame's row (or as the root).
#[verifier::rlimit(100)]
proof fn lemma_pattern_insert_pm(cfg: BuildConfig, st: BuildState, l: Seq<char>)
    requires
        cfg.patterns.len() > 0,
        pattern_mode_inv(cfg, st),
        spec_step(cfg, st, l) is Ok,
        l.len() > 0,
        l[0] == '+',
        st.tree.rows.len() < cfg.max_size,
        spec_line_matches(cfg.patterns, l.skip(1)) || spec_window_hit(cfg, st.stack),
    ensures
        pm_stack_inv(
            cfg,
            spec_step(cfg, st, l)->Ok_0.stack,
            spec_step(cfg, st, l)->Ok_0.tree.rows,
        ),
{
    reveal(pm_stack_inv);
    let st2 = spec_step(cfg, st, l)->Ok_0;
    let stack = st.stack;
    let body = l.skip(1);
    let rec = spec_parse_token(body)->0;
    let matched = spec_line_matches(cfg.patterns, body);
    lemma_backfill_invs(cfg, stack, st.tree, 0, 0);
    let r = spec_backfill(stack, st.tree, 0, 0);
    let parent = if r.0.len() == 0 {
        0
    } else {
        frame_row_or_zero(r.0.last())
    };
    let pos = spec_insert_pos(r.1, parent);
    let mid = r.1.rows;
    crate::tree::lemma_insert_rows_wf(r.1, rec, parent);
    let newdepth: nat = if mid.len() == 0 {
        0
    } else {
        (mid[parent].depth + 1) as nat
    };
    let x = RowModel { record: rec, depth: newdepth };
    if mid.len() == 0 {
        assert(pos == 0);
    } else if r.0.len() == 0 {
        lemma_root_subtree(mid);
        assert(pos == mid.len());
    } else {
        assert(r.0.last().row is Some);
        assert(r.0.last().row->0 == parent);
        assert(pos == mid.len());
    }
    assert(spec_insert(r.1, rec, parent).rows =~= mid.push(x));
    assert(st2.tree.rows == mid.push(x));
    assert(st2.stack =~= r.0.push(FrameModel { line: body, row: Some(pos), matched }));
    lemma_append_frame_pm(cfg, r.0, mid, body, matched, parent, x);
}

#[verifier::rlimit(100)]
proof fn lemma_pattern_insert_law(cfg: BuildConfig, st: BuildState, l: Seq<char>)
    requires
        cfg.patterns.len() > 0,
        pattern_mode_inv(cfg, st),
        spec_step(cfg, st, l) is Ok,
        l.len() > 0,
        l[0] == '+',
        st.tree.rows.len() < cfg.max_size,
        spec_line_matches(cfg.patterns, l.skip(1)) || spec_window_hit(cfg, st.stack),
    ensures
        leaf_law(cfg, spec_step(cfg, st, l)->Ok_0.tree.rows),
{
    reveal(pm_stack_inv);
    let st2 = spec_step(cfg, st, l)->Ok_0;
    let stack = st.stack;
    let body = l.skip(1);
    let rec = spec_parse_token(body)->0;
    let matched = spec_line_matches(cfg.patterns, body);
    lemma_backfill_invs(cfg, stack, st.tree, 0, 0);
    lemma_backfill_law(cfg, stack, st.tree, 0, 0);
    lemma_backfill_lines(cfg, stack, st.tree, 0, 0);
    let r = spec_backfill(stack, st.tree, 0, 0);
    let s0 = stack.len() as int;
    let parent = if r.0.len() == 0 {
        0
    } else {
        frame_row_or_zero(r.0.last())
    };
    let pos = spec_insert_pos(r.1, parent);
    let mid = r.1.rows;
    let newdepth: nat = if mid.len() == 0 {
        0
    } else {
        (mid[parent].depth + 1) as nat
    };
    let x = RowModel { record: rec, depth: newdepth };
    if mid.len() == 0 {
        assert(pos == 0);
    } else if r.0.len() == 0 {
        lemma_root_subtree(mid);
        assert(pos == mid.len());
    } else {
        assert(r.0.last().row is Some);
        assert(r.0.last().row->0 == parent);
        assert(pos == mid.len());
    }
    let nrows = mid.push(x);
    assert(st2.tree.rows =~= nrows);
    assert forall|r2: int| 0 <= r2 < nrows.len() implies #[trigger] row_law(cfg, nrows, r2) by {
        if r2 < mid.len() - 1 {
            assert(row_law(cfg, mid, r2));
            assert(nrows[r2] == mid[r2]);
            assert(nrows[r2 + 1] == mid[r2 + 1]);
            if is_leaf(nrows, r2) && !row_relevant(cfg.patterns, nrows[r2]) {
                lemma_anc_push(cfg.patterns, mid, x, r2, cfg.depth);
            }
        } else if r2 == mid.len() - 1 {
            if row_law(cfg, mid, r2) {
                assert(nrows[r2] == mid[r2]);
                if is_leaf(nrows, r2) && !row_relevant(cfg.patterns, nrows[r2]) {
                    assert(is_leaf(mid, r2));
                    lemma_anc_push(cfg.patterns, mid, x, r2, cfg.depth);
                }
            } else {
                assert(r.0.len() > 0 && r.0.last().row is Some && r.0.last().row->0 == mid.len()
                    - 1);
                assert(parent == mid.len() - 1);
                assert(x.depth > mid[parent].depth);
                assert(nrows[r2 + 1] == x);
                assert(!is_leaf(nrows, r2));
            }
        } else {
            assert(nrows[r2] == x);
            if matched {
                assert(row_relevant(cfg.patterns, x));
            } else {
                let j = choose|j: int|
                    s0 - cfg.depth <= j < s0 && 0 <= j && (#[trigger] stack[j]).matched;
                assert(r.0[j].matched && r.0[j].line == stack[j].line);
                assert(r.0[j].row is Some);
                let pj = r.0[j].row->0;
                assert(mid[pj].record == spec_parse_token(r.0[j].line)->0);
                assert(row_relevant(cfg.patterns, mid[pj])) by {
                    assert(spec_line_matches(cfg.patterns, stack[j].line));
                }
                lemma_frame_depth_chain(cfg, r.0, mid, j, s0 - 1);
                assert(x.depth - mid[pj].depth == s0 - j);
                assert(crate::tree::subtree_end(mid, pj) == mid.len());
                lemma_scan_end_push(mid, x, mid[pj].depth, (pj + 1) as nat);
                assert(crate::tree::subtree_end(nrows, pj) == nrows.len());
                assert(nrows[pj] == mid[pj]);
                assert(0 <= pj < r2 && r2 < crate::tree::subtree_end(nrows, pj) && nrows[r2].depth
                    - nrows[pj].depth <= cfg.depth && row_relevant(cfg.patterns, nrows[pj]));
            }
        }
    }
}

#[verifier::rlimit(100)]
proof fn lemma_pattern_inv_step(cfg: BuildConfig, st: BuildState, l: Seq<char>)
    requires
        cfg.patterns.len() > 0,
        pattern_mode_inv(cfg, st),
        spec_step(cfg, st, l) is Ok,
    ensures
        pattern_mode_inv(cfg, spec_step(cfg, st, l)->Ok_0),
{
    reveal(pm_stack_inv);
    let st2 = spec_step(cfg, st, l)->Ok_0;
    let rows = st.tree.rows;
    let stack = st.stack;
    if l[0] == '+' {
        let body = l.skip(1);
        let matched = spec_line_matches(cfg.patterns, body);
        if rows.len() >= cfg.max_size || !(matched || spec_window_hit(cfg, stack)) {
            let f = FrameModel { line: body, row: None, matched };
            assert(st2.stack =~= stack.push(f));
            assert(st2.tree == st.tree);
            assert(pm_stack_inv(cfg, st2.stack, st2.tree.rows)) by {
                assert forall|j: int|
                    0 <= j < st2.stack.len() && (#[trigger] st2.stack[j]).row
                        is Some implies {
                    let p = st2.stack[j].row->0;
                    &&& 0 <= p < rows.len()
                    &&& rows[p].record == spec_parse_token(st2.stack[j].line)->0
                    &&& crate::tree::subtree_end(rows, p) == rows.len()
                    &&& (j > 0 ==> st2.stack[j - 1].row is Some && rows[p].depth == rows[
                        st2.stack[j - 1].row->0].depth + 1)
                } by {
                    assert(st2.stack[j] == stack[j]);
                    if j > 0 {
                        assert(st2.stack[j - 1] == stack[j - 1]);
                    }
                }
            }
        } else {
            lemma_pattern_insert_pm(cfg, st, l);
            lemma_pattern_insert_law(cfg, st, l);
        }
    } else {
        assert(st2.tree == st.tree);
        assert(st2.stack =~= stack.drop_last());
        assert(pm_stack_inv(cfg, st2.stack, st2.tree.rows)) by {
            assert forall|j: int|
                0 <= j < st2.stack.len() && (#[trigger] st2.stack[j]).row is Some implies {
                let p = st2.stack[j].row->0;
                &&& 0 <= p < rows.len()
                &&& rows[p].record == spec_parse_token(st2.stack[j].line)->0
                &&& crate::tree::subtree_end(rows, p) == rows.len()
                &&& (j > 0 ==> st2.stack[j - 1].row is Some && rows[p].depth == rows[st2.stack[j
                    - 1].row->0].depth + 1)
            } by {
                assert(st2.stack[j] == stack[j]);
                if j > 0 {
                    assert(st2.stack[j - 1] == stack[j - 1]);
                }
            }
        }
    }
}

proof fn lemma_pattern_run_inv(cfg: BuildConfig, lines: Seq<Seq<char>>, i: int, st: BuildState)
    requires
        cfg.patterns.len() > 0,
        pattern_mode_inv(cfg, st),
    ensures
        pattern_mode_inv(cfg, spec_run(cfg, lines, i, st).0),
    decreases lines.len() - i,
{
    if 0 <= i < lines.len() {
        match spec_step(cfg, st, lines[i]) {
            Err(_) => {
            },
            Ok(st2) => {
                lemma_pattern_inv_step(cfg, st, lines[i]);
                lemma_pattern_run_inv(cfg, lines, i + 1, st2);
            },
        }
    }
}

/// Pattern mode: every leaf of the built tree either matches a relevance
/// pattern itself, or has a strict ancestor at most `depth` levels above it
/// that does. (An inner node may instead owe its presence to a matching
/// descendant: the whole path beneath a match is backfilled.)
pub proof fn lemma_pattern_mode_leaf_relevance(
    cfg: BuildConfig,
    lines: Seq<Seq<char>>,
    t: TreeModel,
)
    requires
        cfg.patterns.len() > 0,
        t.rows.len() == 0,
    ensures
        ({
            let rows = spec_run(cfg, lines, 0, init_build_state(t)).0.tree.rows;
            forall|r: int|
                0 <= r < rows.len() && is_leaf(rows, r) && !row_relevant(
                    cfg.patterns,
                    #[trigger] rows[r],
                ) ==> has_relevant_ancestor(cfg.patterns, rows, r, cfg.depth)
        }),
{
    reveal(pm_stack_inv);
    assert(pattern_mode_inv(cfg, init_build_state(t)));
    lemma_pattern_run_inv(cfg, lines, 0, init_build_state(t));
    let rows = spec_run(cfg, lines, 0, init_build_state(t)).0.tree.rows;
    assert forall|r: int|
        0 <= r < rows.len() && is_leaf(rows, r) && !row_relevant(
            cfg.patterns,
            #[trigger] rows[r],
        ) implies has_relevant_ancestor(cfg.patterns, rows, r, cfg.depth) by {
        assert(row_law(cfg, rows, r));
    }
}

} // verus!

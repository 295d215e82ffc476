//! Session configuration: the resolved settings of one viewing session, the
//! file form they are persisted in, and the compiled relevance patterns.

use vstd::prelude::*;
use crate::data::Action;
use crate::data::action_models;

verus! {

#[verifier::external_type_specification]
#[verifier::external_body]
pub struct ExRegex(regex::Regex);

/// Whether a pattern text is accepted by the pattern engine.
pub uninterp spec fn re_valid(pattern: Seq<char>) -> bool;

/// Whether a pattern matches a text; a pure function of the pattern text and
/// the searched text.
pub uninterp spec fn re_match(pattern: Seq<char>, text: Seq<char>) -> bool;

/// A compiled relevance pattern, kept together with the text it was compiled
/// from; its view is that text.
#[derive(Debug)]
pub struct Pattern {
    re: regex::Regex,
    src: String,
}

impl View for Pattern {
    type V = Seq<char>;

    closed spec fn view(&self) -> Seq<char> {
        self.src@
    }
}

/// Relies on `regex::Regex::new`: compiling succeeds exactly for the pattern
/// texts the engine accepts (named `re_valid`), and the compiled program is a
/// function of the pattern text alone. The only way to construct a
/// [`Pattern`], so every pattern's program was compiled from its view.
#[verifier::external_body]
pub fn compile_pattern(src: &str) -> (r: Option<Pattern>)
    ensures
        r is Some <==> re_valid(src@),
        r matches Some(p) ==> p@ == src@,
{
    match regex::Regex::new(src) {
        Ok(re) => Some(Pattern { re, src: src.to_owned() }),
        Err(_) => None,
    }
}

impl Pattern {
    /// Relies on `regex::Regex::is_match`: the verdict is a pure function
    /// (named `re_match`) of the pattern text this program was compiled from
    /// and of the searched text.
    #[verifier::external_body]
    pub fn is_match(&self, text: &str) -> (b: bool)
        ensures
            b == re_match(self@, text@),
    {
        self.re.is_match(text)
    }

    /// The pattern text this pattern was compiled from.
    pub fn source(&self) -> (s: &str)
        ensures
            s@ == self@,
    {
        self.src.as_str()
    }
}

/// The pattern texts of a pattern list, in order.
pub open spec fn pattern_views(ps: Seq<Pattern>) -> Seq<Seq<char>> {
    Seq::new(ps.len(), |i: int| ps[i]@)
}

/// The texts of a string list, in order.
pub open spec fn str_views(ss: Seq<String>) -> Seq<Seq<char>> {
    Seq::new(ss.len(), |i: int| ss[i]@)
}

/// Where the source code lives and how to open it in an editor.
#[derive(Debug)]
pub struct SourceCodeInfo {
    /// Directory containing the source code.
    pub dir: String,
    /// Command to open source code in an external editor; `%F` stands for
    /// the file name and `%L` for the line number.
    pub editor: String,
}

impl Clone for SourceCodeInfo {
    fn clone(&self) -> (r: Self)
        ensures
            r.dir == self.dir,
            r.editor == self.editor,
    {
        SourceCodeInfo { dir: self.dir.clone(), editor: self.editor.clone() }
    }
}

/// The command line arguments, as plain values.
pub struct Cli {
    /// Configuration file path, when given.
    pub config: Option<String>,
    /// File with the stack-flow data.
    pub file: Option<String>,
    /// Directory where the source files are located.
    pub dir: Option<String>,
    /// Command to open a source file in an external editor.
    pub editor: Option<String>,
    /// How deep the printed tree should be.
    pub depth: Option<u16>,
    /// Truncate the tree when it grows beyond this size.
    pub max_size: Option<usize>,
    /// Patterns matching the items of interest.
    pub only: Vec<String>,
}

/// The configuration file's contents, as plain optional values.
#[derive(Debug)]
pub struct FileConfig {
    pub file: Option<String>,
    pub dir: Option<String>,
    pub editor: Option<String>,
    pub depth: Option<u16>,
    pub max_size: Option<usize>,
    /// Cursor position saved by a previous session.
    pub selected: Option<usize>,
    /// Pattern texts matching the items of interest.
    pub only: Option<Vec<String>>,
    /// Structural edits performed by the user in previous sessions.
    pub actions: Option<Vec<Action>>,
}

impl FileConfig {
    /// An empty file configuration, as when no configuration file exists.
    pub fn new() -> (r: FileConfig)
        ensures
            r.file is None,
            r.dir is None,
            r.editor is None,
            r.depth is None,
            r.max_size is None,
            r.selected is None,
            r.only is None,
            r.actions is None,
    {
        FileConfig {
            file: None,
            dir: None,
            editor: None,
            depth: None,
            max_size: None,
            selected: None,
            only: None,
            actions: None,
        }
    }
}

/// Takes the value out of `source`, leaving the type's default value.
pub fn rpl<T: Default>(source: &mut T) -> (r: T)
    ensures
        r == *old(source),
        call_ensures(T::default, (), *final(source)),
{
    let mut t = T::default();
    core::mem::swap(source, &mut t);
    t
}

/// The resolved settings of one session.
#[derive(Debug)]
pub struct Configuration {
    /// Path of the configuration file the session saves to.
    pub config: String,
    /// Path of the file with the stack-flow data.
    pub file: String,
    /// How deep the printed tree should be; in pattern mode, the lookback
    /// window from the nearest match.
    pub depth: u16,
    /// Truncate the tree when it grows beyond this size.
    pub max_size: usize,
    /// Cursor position.
    pub selected: usize,
    /// Structural edits to replay, in recorded order.
    pub actions: Vec<Action>,
    /// Compiled relevance patterns; when empty, the whole tree is shown up
    /// to `depth`.
    pub only: Vec<Pattern>,
    /// Where the sources live and how to open them, when configured.
    pub source_code_info: Option<SourceCodeInfo>,
}

/// What went wrong while resolving the configuration.
#[derive(Debug)]
pub enum ConfigError {
    /// A configured relevance pattern is not a valid pattern.
    PatternCompile { pattern: String },
    /// No stack-flow file was named on the command line or in the file.
    MissingFile,
    /// `dir` was configured without `editor`.
    DirWithoutEditor,
    /// `editor` was configured without `dir`.
    EditorWithoutDir,
}

impl SourceCodeInfo {
    /// Combines the command line's and the file's source-code settings: the
    /// command line wins, both of `dir` and `editor` must be given or
    /// neither.
    pub fn new_option(args: &Cli, file: &FileConfig) -> (r: Result<
        Option<SourceCodeInfo>,
        ConfigError,
    >)
        ensures
            ({
                let dir = if args.dir is Some {
                    args.dir
                } else {
                    file.dir
                };
                let editor = if args.editor is Some {
                    args.editor
                } else {
                    file.editor
                };
                match r {
                    Ok(None) => dir is None && editor is None,
                    Ok(Some(sci)) => dir == Some(sci.dir) && editor == Some(sci.editor),
                    Err(e) => (e == (ConfigError::DirWithoutEditor) && dir is Some && editor
                        is None) || (e == (ConfigError::EditorWithoutDir) && dir is None && editor
                        is Some),
                }
            }),
    {
        let dir = match &args.dir {
            Some(d) => Some(d),
            None => match &file.dir {
                Some(d) => Some(d),
                None => None,
            },
        };
        let editor = match &args.editor {
            Some(e) => Some(e),
            None => match &file.editor {
                Some(e) => Some(e),
                None => None,
            },
        };
        match (dir, editor) {
            (None, None) => Ok(None),
            (Some(d), Some(e)) => Ok(
                Some(SourceCodeInfo { dir: d.clone(), editor: e.clone() }),
            ),
            (Some(_), None) => Err(ConfigError::DirWithoutEditor),
            (None, Some(_)) => Err(ConfigError::EditorWithoutDir),
        }
    }
}

/// The pattern texts a session uses: those from the configuration file
/// first, then those from the command line, in order.
pub open spec fn combined_pattern_texts(args: Cli, file_config: FileConfig) -> Seq<Seq<char>> {
    let from_file = match file_config.only {
        Some(v) => str_views(v@),
        None => Seq::empty(),
    };
    from_file + str_views(args.only@)
}

/// Whether every pattern text is valid.
pub open spec fn all_patterns_valid(ps: Seq<Seq<char>>) -> bool {
    forall|i: int| 0 <= i < ps.len() ==> re_valid(#[trigger] ps[i])
}

/// The first invalid pattern text.
pub open spec fn first_invalid_pattern(ps: Seq<Seq<char>>) -> int
    decreases ps.len(),
{
    if ps.len() == 0 {
        0
    } else if !re_valid(ps[0]) {
        0
    } else {
        1 + first_invalid_pattern(ps.skip(1))
    }
}

/// When everything before position `k` is valid and `k` is not, `k` is the
/// first invalid pattern.
proof fn lemma_first_invalid(ps: Seq<Seq<char>>, k: int)
    requires
        0 <= k < ps.len(),
        !re_valid(ps[k]),
        forall|j: int| 0 <= j < k ==> re_valid(#[trigger] ps[j]),
    ensures
        first_invalid_pattern(ps) == k,
    decreases k,
{
    if k > 0 {
        assert(forall|j: int| 0 <= j < k - 1 ==> ps.skip(1)[j] == ps[j + 1]);
        lemma_first_invalid(ps.skip(1), k - 1);
        assert(ps.skip(1)[k - 1] == ps[k]);
    }
}

impl Configuration {
    /// The configuration file path: the one named on the command line, or
    /// the default file in the working directory.
    pub fn config_path(args: &Cli) -> (r: String)
        ensures
            args.config matches Some(p) ==> r == p,
            args.config is None ==> r@ == "stacktraceflow.toml"@,
    {
        match &args.config {
            Some(p) => p.clone(),
            None => {
                let s: &str = "stacktraceflow.toml";
                s.to_owned()
            },
        }
    }

    /// Merges the command line over the file configuration and fills the
    /// documented defaults: depth falls back to 10 without patterns and 3
    /// with them, the size budget to 10000, the cursor to 1; the relevance
    /// patterns — the file's first, then the command line's — are compiled.
    /// Succeeds exactly when every pattern is valid, a stack-flow file is
    /// named, and `dir` and `editor` are both given or both absent.
    pub fn resolve(args: Cli, file_config: FileConfig, config_path: String) -> (r: Result<
        Configuration,
        ConfigError,
    >)
        ensures
            ({
                let combined = combined_pattern_texts(args, file_config);
                let dir = if args.dir is Some {
                    args.dir
                } else {
                    file_config.dir
                };
                let editor = if args.editor is Some {
                    args.editor
                } else {
                    file_config.editor
                };
                match r {
                    Ok(c) => {
                        &&& all_patterns_valid(combined)
                        &&& (args.file is Some || file_config.file is Some)
                        &&& (dir is Some <==> editor is Some)
                        &&& c.config == config_path
                        &&& c.file == (if args.file is Some {
                            args.file->0
                        } else {
                            file_config.file->0
                        })
                        &&& pattern_views(c.only@) == combined
                        &&& c.depth == (if args.depth is Some {
                            args.depth->0
                        } else if file_config.depth is Some {
                            file_config.depth->0
                        } else if combined.len() == 0 {
                            10u16
                        } else {
                            3u16
                        })
                        &&& c.max_size == (if args.max_size is Some {
                            args.max_size->0
                        } else if file_config.max_size is Some {
                            file_config.max_size->0
                        } else {
                            10000usize
                        })
                        &&& c.selected == (if file_config.selected is Some {
                            file_config.selected->0
                        } else {
                            1usize
                        })
                        &&& c.actions@ == (if file_config.actions is Some {
                            file_config.actions->0@
                        } else {
                            Seq::<Action>::empty()
                        })
                        &&& (dir is None ==> c.source_code_info is None)
                        &&& (dir is Some ==> c.source_code_info == Some(
                            SourceCodeInfo { dir: dir->0, editor: editor->0 },
                        ))
                    },
                    Err(ConfigError::PatternCompile { pattern }) => {
                        &&& !all_patterns_valid(combined)
                        &&& pattern@ == combined[first_invalid_pattern(combined)]
                    },
                    Err(ConfigError::MissingFile) => {
                        &&& all_patterns_valid(combined)
                        &&& args.file is None
                        &&& file_config.file is None
                    },
                    Err(ConfigError::DirWithoutEditor) => {
                        &&& all_patterns_valid(combined)
                        &&& (args.file is Some || file_config.file is Some)
                        &&& dir is Some
                        &&& editor is None
                    },
                    Err(ConfigError::EditorWithoutDir) => {
                        &&& all_patterns_valid(combined)
                        &&& (args.file is Some || file_config.file is Some)
                        &&& dir is None
                        &&& editor is Some
                    },
                }
            }),
    {
        let ghost combined = combined_pattern_texts(args, file_config);
        let sci_res = SourceCodeInfo::new_option(&args, &file_config);
        let mut pats: Vec<Pattern> = Vec::new();
        let ghost nfile = match file_config.only {
            Some(ref v) => v@.len() as int,
            None => 0,
        };
        match &file_config.only {
            Some(v) => {
                let mut i: usize = 0;
                while i < v.len()
                    invariant
                        i <= v@.len(),
                        combined == combined_pattern_texts(args, file_config),
                        file_config.only matches Some(w) && w == v,
                        nfile == v@.len(),
                        combined.len() == nfile + args.only@.len(),
                        forall|j: int| 0 <= j < nfile ==> combined[j] == str_views(v@)[j],
                        pats@.len() == i,
                        pattern_views(pats@) =~= combined.take(i as int),
                        forall|j: int| 0 <= j < i ==> re_valid(#[trigger] combined[j]),
                    decreases v@.len() - i,
                {
                    match compile_pattern(v[i].as_str()) {
                        Some(p) => {
                            pats.push(p);
                            proof {
                                assert(str_views(v@)[i as int] == v@[i as int]@);
                                assert(p@ == combined[i as int]);
                                assert(pattern_views(pats@) =~= combined.take(i + 1));
                            }
                        },
                        None => {
                            proof {
                                lemma_first_invalid(combined, i as int);
                            }
                            return Err(ConfigError::PatternCompile { pattern: v[i].clone() });
                        },
                    }
                    i = i + 1;
                }
            },
            None => {},
        }
        let mut i: usize = 0;
        while i < args.only.len()
            invariant
                i <= args.only@.len(),
                combined == combined_pattern_texts(args, file_config),
                nfile == (match file_config.only {
                    Some(v) => v@.len() as int,
                    None => 0,
                }),
                combined.len() == nfile + args.only@.len(),
                forall|j: int|
                    0 <= j < args.only@.len() ==> combined[nfile + j] == str_views(args.only@)[j],
                pats@.len() == nfile + i,
                pattern_views(pats@) =~= combined.take(nfile + i),
                forall|j: int| 0 <= j < nfile + i ==> re_valid(#[trigger] combined[j]),
            decreases args.only@.len() - i,
        {
            match compile_pattern(args.only[i].as_str()) {
                Some(p) => {
                    pats.push(p);
                    proof {
                        assert(pattern_views(pats@) =~= combined.take(nfile + i + 1));
                    }
                },
                None => {
                    proof {
                        assert(combined[nfile + i] == str_views(args.only@)[i as int]);
                        assert(combined[nfile + i] == args.only@[i as int]@);
                        assert(!re_valid(combined[nfile + i]));
                        lemma_first_invalid(combined, nfile + i);
                    }
                    return Err(ConfigError::PatternCompile { pattern: args.only[i].clone() });
                },
            }
            i = i + 1;
        }
        proof {
            assert(pattern_views(pats@) =~= combined);
            assert(combined.take(combined.len() as int) =~= combined);
        }
        let file: String = match args.file {
            Some(f) => f,
            None => match file_config.file {
                Some(f) => f,
                None => {
                    return Err(ConfigError::MissingFile);
                },
            },
        };
        let depth: u16 = match args.depth {
            Some(d) => d,
            None => match file_config.depth {
                Some(d) => d,
                None => {
                    if pats.len() == 0 {
                        10
                    } else {
                        3
                    }
                },
            },
        };
        let max_size: usize = match args.max_size {
            Some(m) => m,
            None => match file_config.max_size {
                Some(m) => m,
                None => 10000,
            },
        };
        let selected: usize = match file_config.selected {
            Some(s) => s,
            None => 1,
        };
        let actions: Vec<Action> = match file_config.actions {
            Some(a) => a,
            None => Vec::new(),
        };
        let source_code_info = match sci_res {
            Ok(s) => s,
            Err(e) => {
                return Err(e);
            },
        };
        Ok(
            Configuration {
                config: config_path,
                file,
                depth,
                max_size,
                selected,
                actions,
                only: pats,
                source_code_info,
            },
        )
    }

    /// The file form of this configuration, with the cursor position to
    /// save; empty action and pattern lists are left out of the file. The
    /// configuration itself is left untouched, so a running session can be
    /// saved and continued.
    pub fn to_file_config(&self, selected: usize) -> (r: FileConfig)
        ensures
            r.file == Some(self.file),
            self.source_code_info is None ==> r.dir is None && r.editor is None,
            self.source_code_info matches Some(s) ==> r.dir == Some(s.dir) && r.editor == Some(
                s.editor,
            ),
            r.depth == Some(self.depth),
            r.max_size == Some(self.max_size),
            r.selected == Some(selected),
            self.actions@.len() == 0 ==> r.actions is None,
            self.actions@.len() > 0 ==> (r.actions matches Some(v) && action_models(v@)
                == action_models(self.actions@)),
            self.only@.len() == 0 ==> r.only is None,
            self.only@.len() > 0 ==> (r.only matches Some(v) && str_views(v@) == pattern_views(
                self.only@,
            )),
    {
        let dir = match &self.source_code_info {
            Some(s) => Some(s.dir.clone()),
            None => None,
        };
        let editor = match &self.source_code_info {
            Some(s) => Some(s.editor.clone()),
            None => None,
        };
        FileConfig {
            file: Some(self.file.clone()),
            dir,
            editor,
            depth: Some(self.depth),
            max_size: Some(self.max_size),
            selected: Some(selected),
            actions: if self.actions.len() == 0 {
                None
            } else {
                Some(clone_actions(&self.actions))
            },
            only: if self.only.len() == 0 {
                None
            } else {
                Some(pattern_sources(&self.only))
            },
        }
    }
}

/// The actions of an edit log, copied.
fn clone_actions(v: &Vec<Action>) -> (r: Vec<Action>)
    ensures
        action_models(r@) == action_models(v@),
{
    let mut r: Vec<Action> = Vec::new();
    let mut i: usize = 0;
    while i < v.len()
        invariant
            i <= v@.len(),
            r@.len() == i,
            action_models(r@) =~= action_models(v@).take(i as int),
        decreases v@.len() - i,
    {
        r.push(v[i].clone());
        proof {
            assert(action_models(r@) =~= action_models(v@).take(i + 1));
        }
        i = i + 1;
    }
    proof {
        assert(action_models(v@).take(v@.len() as int) =~= action_models(v@));
    }
    r
}

/// The pattern texts of the given patterns, as owned strings.
fn pattern_sources(ps: &Vec<Pattern>) -> (r: Vec<String>)
    ensures
        str_views(r@) == pattern_views(ps@),
{
    let mut r: Vec<String> = Vec::new();
    let mut i: usize = 0;
    while i < ps.len()
        invariant
            i <= ps@.len(),
            r@.len() == i,
            str_views(r@) =~= pattern_views(ps@).take(i as int),
        decreases ps@.len() - i,
    {
        r.push(ps[i].source().to_owned());
        proof {
            assert(str_views(r@) =~= pattern_views(ps@).take(i + 1));
        }
        i = i + 1;
    }
    proof {
        assert(pattern_views(ps@).take(ps@.len() as int) =~= pattern_views(ps@));
    }
    r
}

/// Appends a user-issued matching edit to the session's persisted edit log.
pub fn add_action(configuration: &mut Configuration, act: Action)
    ensures
        final(configuration).actions@ == old(configuration).actions@.push(act),
        final(configuration).config == old(configuration).config,
        final(configuration).file == old(configuration).file,
        final(configuration).depth == old(configuration).depth,
        final(configuration).max_size == old(configuration).max_size,
        final(configuration).selected == old(configuration).selected,
        final(configuration).only == old(configuration).only,
        final(configuration).source_code_info == old(configuration).source_code_info,
{
    configuration.actions.push(act);
}

} // verus!

//! The shell's decision logic: colon-separated search-path bookkeeping, and
//! the evaluator that turns one input line into the actions a runtime must
//! perform. Everything here is pure; reading directories, spawning processes
//! and printing stay with the caller.

use vstd::prelude::*;

use crate::doc::{spec_parse_usize, str_eq};

verus! {

/// Position of the first occurrence of `c`, if any.
pub open spec fn find_char(s: Seq<char>, c: char) -> Option<int>
    decreases s.len(),
{
    if s.len() == 0 {
        None
    } else if s[0] == c {
        Some(0)
    } else {
        match find_char(s.drop_first(), c) {
            None => None,
            Some(k) => Some(k + 1),
        }
    }
}

/// `find_char` returns the position of the first occurrence, and `None`
/// exactly when there is none.
pub proof fn lemma_find_char(s: Seq<char>, c: char)
    ensures
        match find_char(s, c) {
            Some(k) => 0 <= k < s.len() && s[k] == c && forall|j: int| 0 <= j < k ==> s[j] != c,
            None => forall|j: int| 0 <= j < s.len() ==> s[j] != c,
        },
    decreases s.len(),
{
    if s.len() > 0 && s[0] != c {
        lemma_find_char(s.drop_first(), c);
        assert forall|j: int| 0 <= j < s.len() && find_char(s, c) is None implies s[j] != c by {
            if j > 0 {
                assert(s.drop_first()[j - 1] != c);
            }
        }
        match find_char(s.drop_first(), c) {
            Some(k) => {
                assert forall|j: int| 0 <= j < k + 1 implies s[j] != c by {
                    if j > 0 {
                        assert(s.drop_first()[j - 1] != c);
                    }
                }
            },
            None => {},
        }
    }
}

/// The segments of a colon-separated list, as `str::split(":")` yields them:
/// an empty string has one empty segment, and every colon separates two.
pub open spec fn split_colon(s: Seq<char>) -> Seq<Seq<char>>
    decreases s.len(),
{
    match find_char(s, ':') {
        None => seq![s],
        Some(k) => if 0 <= k < s.len() {
            seq![s.take(k)] + split_colon(s.skip(k + 1))
        } else {
            // the first occurrence is always in range; not reachable
            seq![s]
        },
    }
}

/// Segments joined back with colons.
pub open spec fn join_colon(segs: Seq<Seq<char>>) -> Seq<char>
    decreases segs.len(),
{
    if segs.len() == 0 {
        Seq::empty()
    } else if segs.len() == 1 {
        segs[0]
    } else {
        segs[0] + seq![':'] + join_colon(segs.drop_first())
    }
}

/// The character sequences of a run of strings, element by element.
pub open spec fn seq_views(v: Seq<String>) -> Seq<Seq<char>> {
    Seq::new(v.len(), |i: int| v[i]@)
}

/// Split a string at every colon.
fn split_segments(s: &str) -> (r: Vec<String>)
    ensures
        seq_views(r@) == split_colon(s@),
{
    let n = s.unicode_len();
    let mut out: Vec<String> = Vec::new();
    let mut p: usize = 0;
    let mut i: usize = 0;
    proof {
        assert(s@.skip(0) =~= s@);
        assert(seq_views(out@) + split_colon(s@.skip(0)) =~= split_colon(s@));
    }
    while i < n
        invariant
            p <= i <= n,
            n == s@.len(),
            forall|j: int| p <= j < i ==> s@[j] != ':',
            split_colon(s@) =~= seq_views(out@) + split_colon(s@.skip(p as int)),
        decreases n - i,
    {
        if s.get_char(i) == ':' {
            let seg = s.substring_char(p, i).to_owned();
            proof {
                let suffix = s@.skip(p as int);
                lemma_find_char(suffix, ':');
                assert(suffix[i - p] == ':');
                assert(forall|j: int| 0 <= j < i - p ==> suffix[j] != ':');
                match find_char(suffix, ':') {
                    Some(k) => {
                        assert(k == i - p);
                    },
                    None => {
                        assert(false);
                    },
                }
                assert(suffix.take(i - p) =~= s@.subrange(p as int, i as int));
                assert(suffix.skip(i - p + 1) =~= s@.skip(i as int + 1));
                assert(seq_views(out@.push(seg)) =~= seq_views(out@) + seq![seg@]);
            }
            out.push(seg);
            p = i + 1;
        }
        i += 1;
    }
    let seg = s.substring_char(p, n).to_owned();
    proof {
        let suffix = s@.skip(p as int);
        lemma_find_char(suffix, ':');
        match find_char(suffix, ':') {
            Some(k) => {
                assert(suffix[k] == ':');
                assert(s@[p + k] == ':');
                assert(false);
            },
            None => {},
        }
        assert(suffix =~= s@.subrange(p as int, n as int));
        assert(seq_views(out@.push(seg)) =~= seq_views(out@) + seq![seg@]);
        assert(seq_views(out@.push(seg)) =~= seq_views(out@) + split_colon(s@.skip(p as int)));
    }
    out.push(seg);
    out
}

/// What adding a directory leaves in the path: nothing new when some segment
/// already spells it; otherwise the directory, after a separating colon
/// whenever the path was not empty.
pub open spec fn spec_path_add(path: Seq<char>, dir: Seq<char>) -> Seq<char> {
    if split_colon(path).contains(dir) {
        path
    } else if path.len() == 0 {
        dir
    } else {
        path + seq![':'] + dir
    }
}

/// Append `dir` to the colon-separated path unless a segment already
/// spells it.
pub fn path_add(path: &mut String, dir: &str)
    ensures
        final(path)@ == spec_path_add(old(path)@, dir@),
{
    let segs = split_segments(path.as_str());
    let count = segs.len();
    let mut i: usize = 0;
    while i < count
        invariant
            i <= count == segs@.len(),
            seq_views(segs@) == split_colon(path@),
            path@ == old(path)@,
            forall|j: int| 0 <= j < i ==> (#[trigger] segs@[j])@ != dir@,
        decreases count - i,
    {
        if str_eq(segs[i].as_str(), dir) {
            proof {
                assert(split_colon(path@)[i as int] == dir@);
                assert(split_colon(path@).contains(dir@));
            }
            return;
        }
        i += 1;
    }
    proof {
        assert forall|j: int| 0 <= j < split_colon(path@).len() implies split_colon(path@)[j]
            != dir@ by {
            assert(segs@[j]@ != dir@);
        }
        assert(!split_colon(path@).contains(dir@));
    }
    if path.as_str().is_empty() {
        path.append(dir);
        proof {
            assert(final(path)@ =~= dir@);
        }
    } else {
        proof {
            reveal_strlit(":");
            assert(":"@ =~= seq![':']);
        }
        path.append(":");
        path.append(dir);
    }
}

/// The segments with every occurrence of `dir` removed, order kept.
pub open spec fn remove_segment(segs: Seq<Seq<char>>, dir: Seq<char>) -> Seq<Seq<char>>
    decreases segs.len(),
{
    if segs.len() == 0 {
        Seq::empty()
    } else if segs[0] == dir {
        remove_segment(segs.drop_first(), dir)
    } else {
        seq![segs[0]] + remove_segment(segs.drop_first(), dir)
    }
}

/// What removing a directory leaves in the path: the segments that do not
/// spell it, joined back with colons.
pub open spec fn spec_path_remove(path: Seq<char>, dir: Seq<char>) -> Seq<char> {
    join_colon(remove_segment(split_colon(path), dir))
}

/// Joining after a push appends a colon (when anything precedes) and the
/// new segment.
proof fn lemma_join_push(segs: Seq<Seq<char>>, x: Seq<char>)
    ensures
        join_colon(segs.push(x)) == if segs.len() == 0 {
            x
        } else {
            join_colon(segs) + seq![':'] + x
        },
    decreases segs.len(),
{
    if segs.len() == 0 {
        assert(segs.push(x)[0] == x);
    } else {
        lemma_join_push(segs.drop_first(), x);
        assert(segs.push(x).drop_first() =~= segs.drop_first().push(x));
        if segs.len() == 1 {
            assert(join_colon(segs.push(x)) == segs[0] + seq![':'] + x);
        } else {
            assert(join_colon(segs) + seq![':'] + x =~= segs[0] + seq![':'] + (join_colon(
                segs.drop_first(),
            ) + seq![':'] + x));
        }
    }
}

/// Drop every path segment that spells `dir`, keeping the others in order.
pub fn path_remove(path: &mut String, dir: &str)
    ensures
        final(path)@ == spec_path_remove(old(path)@, dir@),
{
    let segs = split_segments(path.as_str());
    let count = segs.len();
    let mut kept: Vec<String> = Vec::new();
    let mut i: usize = 0;
    proof {
        assert(seq_views(segs@).skip(0) =~= seq_views(segs@));
        assert(seq_views(kept@) + remove_segment(seq_views(segs@).skip(0), dir@) =~= remove_segment(
            seq_views(segs@),
            dir@,
        ));
    }
    while i < count
        invariant
            i <= count == segs@.len(),
            seq_views(segs@) == split_colon(old(path)@),
            remove_segment(seq_views(segs@), dir@) == seq_views(kept@) + remove_segment(
                seq_views(segs@).skip(i as int),
                dir@,
            ),
        decreases count - i,
    {
        proof {
            assert(seq_views(segs@).skip(i as int)[0] == segs@[i as int]@);
            assert(seq_views(segs@).skip(i as int).drop_first() =~= seq_views(segs@).skip(
                i as int + 1,
            ));
        }
        if !str_eq(segs[i].as_str(), dir) {
            let seg = segs[i].clone();
            proof {
                assert(seq_views(kept@.push(seg)) =~= seq_views(kept@) + seq![segs@[i as int]@]);
                assert((seq_views(kept@) + seq![segs@[i as int]@]) + remove_segment(
                    seq_views(segs@).skip(i as int + 1),
                    dir@,
                ) =~= seq_views(kept@) + (seq![segs@[i as int]@] + remove_segment(
                    seq_views(segs@).skip(i as int + 1),
                    dir@,
                )));
            }
            kept.push(seg);
        }
        i += 1;
    }
    proof {
        assert(seq_views(segs@).skip(count as int) =~= Seq::<Seq<char>>::empty());
        assert(seq_views(kept@) + Seq::<Seq<char>>::empty() =~= seq_views(kept@));
    }
    let mut joined = String::new();
    let total = kept.len();
    let mut j: usize = 0;
    proof {
        assert(seq_views(kept@).take(0) =~= Seq::<Seq<char>>::empty());
    }
    while j < total
        invariant
            j <= total == kept@.len(),
            seq_views(kept@) == remove_segment(split_colon(old(path)@), dir@),
            joined@ == join_colon(seq_views(kept@).take(j as int)),
        decreases total - j,
    {
        proof {
            reveal_strlit(":");
            assert(":"@ =~= seq![':']);
            lemma_join_push(seq_views(kept@).take(j as int), kept@[j as int]@);
            assert(seq_views(kept@).take(j as int).push(kept@[j as int]@) =~= seq_views(
                kept@,
            ).take(j as int + 1));
        }
        if j > 0 {
            joined.append(":");
        }
        joined.append(kept[j].as_str());
        j += 1;
    }
    proof {
        assert(seq_views(kept@).take(total as int) =~= seq_views(kept@));
    }
    *path = joined;
}

/// The files a relative command may resolve to, one candidate per path
/// segment, in path order: the segment, a slash, the command. An empty or
/// absolute command is not searched and has no candidates.
pub fn exec_candidates(command: &str, path: &str) -> (r: Vec<String>)
    ensures
        (command@.len() == 0 || command@[0] == '/') ==> r@.len() == 0,
        !(command@.len() == 0 || command@[0] == '/') ==> {
            &&& seq_views(r@).len() == split_colon(path@).len()
            &&& forall|i: int|
                0 <= i < r@.len() ==> (#[trigger] r@[i])@ == split_colon(path@)[i] + seq!['/']
                    + command@
        },
{
    if command.unicode_len() == 0 || command.get_char(0) == '/' {
        return Vec::new();
    }
    proof {
        reveal_strlit("/");
        assert("/"@ =~= seq!['/']);
    }
    let segs = split_segments(path);
    let count = segs.len();
    let mut out: Vec<String> = Vec::new();
    let mut i: usize = 0;
    while i < count
        invariant
            i <= count == segs@.len(),
            seq_views(segs@) == split_colon(path@),
            out@.len() == i,
            "/"@ =~= seq!['/'],
            forall|j: int|
                0 <= j < i ==> (#[trigger] out@[j])@ == split_colon(path@)[j] + seq!['/']
                    + command@,
        decreases count - i,
    {
        let full = segs[i].clone().concat("/").concat(command);
        proof {
            assert(full@ =~= segs@[i as int]@ + seq!['/'] + command@);
        }
        out.push(full);
        i += 1;
    }
    out
}

/// Model of one runtime action.
pub enum ActionModel {
    Print(Seq<char>),
    Pwd,
    Cd(Seq<char>),
    Exec(Seq<char>, Seq<Seq<char>>),
    ShowHistory,
}

/// One thing the runtime must do after an evaluation: print a line, print
/// the working directory, change it, run a command with arguments (searching
/// the path), or list the history.
pub enum ShellAction {
    Print(String),
    Pwd,
    Cd(String),
    Exec(String, Vec<String>),
    ShowHistory,
}

impl View for ShellAction {
    type V = ActionModel;

    open spec fn view(&self) -> ActionModel {
        match self {
            ShellAction::Print(s) => ActionModel::Print(s@),
            ShellAction::Pwd => ActionModel::Pwd,
            ShellAction::Cd(s) => ActionModel::Cd(s@),
            ShellAction::Exec(c, args) => ActionModel::Exec(c@, seq_views(args@)),
            ShellAction::ShowHistory => ActionModel::ShowHistory,
        }
    }
}

/// The models of a run of actions, element by element.
pub open spec fn action_views(v: Seq<ShellAction>) -> Seq<ActionModel> {
    Seq::new(v.len(), |i: int| v[i]@)
}

/// The whitespace-separated tokens of a line.
pub uninterp spec fn ws_tokens(s: Seq<char>) -> Seq<Seq<char>>;

/// A line with leading and trailing whitespace removed.
pub uninterp spec fn trim_of(s: Seq<char>) -> Seq<char>;

/// Relies on str::split_whitespace: the tokens are a function of the
/// characters alone.
#[verifier::external_body]
fn tokenize(s: &str) -> (r: Vec<String>)
    ensures
        r@.len() == ws_tokens(s@).len(),
        forall|i: int| 0 <= i < r@.len() ==> (#[trigger] r@[i])@ == ws_tokens(s@)[i],
{
    let mut out = Vec::new();
    for t in s.split_whitespace() {
        out.push(t.to_owned());
    }
    out
}

/// Relies on str::trim: it removes only leading and trailing whitespace, so
/// the result is a function of the characters alone and splits into the same
/// whitespace-separated tokens as the line it came from.
#[verifier::external_body]
fn trim_owned(s: &str) -> (r: String)
    ensures
        r@ == trim_of(s@),
        ws_tokens(r@) == ws_tokens(s@),
{
    s.trim().to_owned()
}

/// What one non-`history` command decides: whether to exit, what the runtime
/// must do, and the search path afterwards.
pub open spec fn spec_dispatch(toks: Seq<Seq<char>>, path: Seq<char>) -> (
    bool,
    Seq<ActionModel>,
    Seq<char>,
)
    recommends
        toks.len() > 0,
{
    let cmd = toks[0];
    let args = toks.drop_first();
    if cmd == "exit"@ {
        (true, Seq::<ActionModel>::empty(), path)
    } else if cmd == "pwd"@ {
        if args.len() == 0 {
            (false, seq![ActionModel::Pwd], path)
        } else {
            (false, seq![ActionModel::Print("Error: pwd takes no arguments"@)], path)
        }
    } else if cmd == "cd"@ {
        if args.len() == 1 {
            (false, seq![ActionModel::Cd(args[0])], path)
        } else {
            (false, seq![ActionModel::Print("Error: cd takes exactly one arg"@)], path)
        }
    } else if cmd == "path"@ {
        if args.len() == 0 {
            (false, seq![ActionModel::Print(path)], path)
        } else if args.len() == 2 && args[0] == "+"@ {
            (false, Seq::<ActionModel>::empty(), spec_path_add(path, args[1]))
        } else if args.len() == 2 && args[0] == "-"@ {
            (false, Seq::<ActionModel>::empty(), spec_path_remove(path, args[1]))
        } else {
            (false, seq![ActionModel::Print("Error: path usage: path [+/- dir]"@)], path)
        }
    } else {
        (false, seq![ActionModel::Exec(cmd, args)], path)
    }
}

/// One action that prints a line.
fn print_action(msg: &str) -> (r: Vec<ShellAction>)
    ensures
        action_views(r@) == seq![ActionModel::Print(msg@)],
{
    let mut v: Vec<ShellAction> = Vec::new();
    v.push(ShellAction::Print(msg.to_owned()));
    proof {
        assert(action_views(v@) =~= seq![ActionModel::Print(msg@)]);
    }
    v
}

/// Run one non-`history` command against the path, yielding the exit flag
/// and the runtime actions.
fn dispatch(toks: &Vec<String>, path: &mut String) -> (r: (bool, Vec<ShellAction>))
    requires
        toks@.len() > 0,
    ensures
        ({
            let d = spec_dispatch(seq_views(toks@), old(path)@);
            &&& r.0 == d.0
            &&& action_views(r.1@) == d.1
            &&& final(path)@ == d.2
        }),
{
    let count = toks.len();
    if str_eq(toks[0].as_str(), "exit") {
        let v: Vec<ShellAction> = Vec::new();
        proof {
            assert(action_views(v@) =~= Seq::<ActionModel>::empty());
        }
        return (true, v);
    }
    if str_eq(toks[0].as_str(), "pwd") {
        if count == 1 {
            let mut v: Vec<ShellAction> = Vec::new();
            v.push(ShellAction::Pwd);
            proof {
                assert(action_views(v@) =~= seq![ActionModel::Pwd]);
            }
            return (false, v);
        }
        return (false, print_action("Error: pwd takes no arguments"));
    }
    if str_eq(toks[0].as_str(), "cd") {
        if count == 2 {
            let mut v: Vec<ShellAction> = Vec::new();
            v.push(ShellAction::Cd(toks[1].clone()));
            proof {
                assert(action_views(v@) =~= seq![ActionModel::Cd(seq_views(toks@).drop_first()[0])]);
            }
            return (false, v);
        }
        return (false, print_action("Error: cd takes exactly one arg"));
    }
    if str_eq(toks[0].as_str(), "path") {
        if count == 1 {
            let mut v: Vec<ShellAction> = Vec::new();
            v.push(ShellAction::Print(path.clone()));
            proof {
                assert(action_views(v@) =~= seq![ActionModel::Print(old(path)@)]);
            }
            return (false, v);
        }
        if count == 3 && str_eq(toks[1].as_str(), "+") {
            path_add(path, toks[2].as_str());
            let v: Vec<ShellAction> = Vec::new();
            proof {
                assert(action_views(v@) =~= Seq::<ActionModel>::empty());
                assert(seq_views(toks@).drop_first()[1] == toks@[2]@);
            }
            return (false, v);
        }
        if count == 3 && str_eq(toks[1].as_str(), "-") {
            path_remove(path, toks[2].as_str());
            let v: Vec<ShellAction> = Vec::new();
            proof {
                assert(action_views(v@) =~= Seq::<ActionModel>::empty());
                assert(seq_views(toks@).drop_first()[1] == toks@[2]@);
            }
            return (false, v);
        }
        return (false, print_action("Error: path usage: path [+/- dir]"));
    }
    let mut args: Vec<String> = Vec::new();
    let mut i: usize = 1;
    while i < count
        invariant
            1 <= i <= count == toks@.len(),
            args@.len() == i - 1,
            forall|j: int| 0 <= j < i - 1 ==> (#[trigger] args@[j])@ == toks@[j + 1]@,
        decreases count - i,
    {
        args.push(toks[i].clone());
        i += 1;
    }
    let mut v: Vec<ShellAction> = Vec::new();
    v.push(ShellAction::Exec(toks[0].clone(), args));
    proof {
        assert(seq_views(args@) =~= seq_views(toks@).drop_first());
        assert(action_views(v@) =~= seq![
            ActionModel::Exec(seq_views(toks@)[0], seq_views(toks@).drop_first()),
        ]);
    }
    (false, v)
}

/// Stored lines always begin with a token, and never with `history`: only
/// such lines are ever pushed, so replaying one cannot recurse.
pub open spec fn history_wf(h: Seq<Seq<char>>) -> bool {
    forall|i: int|
        0 <= i < h.len() ==> {
            &&& (#[trigger] ws_tokens(h[i])).len() > 0
            &&& ws_tokens(h[i])[0] != "history"@
        }
}

/// Everything one evaluation decides: whether to exit, the runtime actions,
/// and the history and path afterwards.
pub struct EvalOutcome {
    pub exit: bool,
    pub actions: Seq<ActionModel>,
    pub history: Seq<Seq<char>>,
    pub path: Seq<char>,
}

/// What evaluating one input line decides. A blank line does nothing. Any
/// line but a `history` command is first recorded, trimmed, then dispatched.
/// `history` alone lists the record; `history -c` clears it; `history` with
/// a position replays the line stored there (recording it again) and
/// discards that line's own exit decision, as a replay never exits; anything
/// else is a usage error.
pub open spec fn spec_eval(input: Seq<char>, history: Seq<Seq<char>>, path: Seq<char>) -> EvalOutcome {
    let toks = ws_tokens(input);
    if toks.len() == 0 {
        EvalOutcome { exit: false, actions: Seq::empty(), history, path }
    } else if toks[0] == "history"@ {
        if toks.len() == 1 {
            EvalOutcome { exit: false, actions: seq![ActionModel::ShowHistory], history, path }
        } else if toks.len() == 2 && toks[1] == "-c"@ {
            EvalOutcome { exit: false, actions: Seq::empty(), history: Seq::empty(), path }
        } else if toks.len() == 2 {
            match spec_parse_usize(toks[1]) {
                None => EvalOutcome {
                    exit: false,
                    actions: seq![ActionModel::Print("Error: history usage: history [-c]/[%d]"@)],
                    history,
                    path,
                },
                Some(i) => if i >= history.len() {
                    EvalOutcome {
                        exit: false,
                        actions: seq![ActionModel::Print("Error: arg out of bounds"@)],
                        history,
                        path,
                    }
                } else {
                    let entry = history[i as int];
                    let d = spec_dispatch(ws_tokens(entry), path);
                    EvalOutcome {
                        exit: false,
                        actions: d.1,
                        history: history.push(trim_of(entry)),
                        path: d.2,
                    }
                },
            }
        } else {
            EvalOutcome {
                exit: false,
                actions: seq![ActionModel::Print("Error: history usage: history [-c]/[%d]"@)],
                history,
                path,
            }
        }
    } else {
        let d = spec_dispatch(toks, path);
        EvalOutcome { exit: d.0, actions: d.1, history: history.push(trim_of(input)), path: d.2 }
    }
}

/// Evaluate one input line: record it when the rules say so, apply what it
/// decides to the path, and hand back the exit flag with the actions the
/// runtime must perform.
pub fn eval(input: &str, history: &mut Vec<String>, path: &mut String) -> (r: (
    bool,
    Vec<ShellAction>,
))
    requires
        history_wf(seq_views(old(history)@)),
    ensures
        history_wf(seq_views(final(history)@)),
        ({
            let o = spec_eval(input@, seq_views(old(history)@), old(path)@);
            &&& r.0 == o.exit
            &&& action_views(r.1@) == o.actions
            &&& seq_views(final(history)@) == o.history
            &&& final(path)@ == o.path
        }),
{
    let toks = tokenize(input);
    if toks.len() == 0 {
        let v: Vec<ShellAction> = Vec::new();
        proof {
            assert(action_views(v@) =~= Seq::<ActionModel>::empty());
        }
        return (false, v);
    }
    if !str_eq(toks[0].as_str(), "history") {
        let trimmed = trim_owned(input);
        history.push(trimmed);
        proof {
            assert(seq_views(history@) =~= seq_views(old(history)@).push(trim_of(input@)));
            assert(seq_views(toks@) =~= ws_tokens(input@));
        }
        let d = dispatch(&toks, path);
        return d;
    }
    let count = toks.len();
    proof {
        assert(seq_views(toks@) =~= ws_tokens(input@));
    }
    if count == 1 {
        let mut v: Vec<ShellAction> = Vec::new();
        v.push(ShellAction::ShowHistory);
        proof {
            assert(action_views(v@) =~= seq![ActionModel::ShowHistory]);
        }
        return (false, v);
    }
    if count == 2 {
        if str_eq(toks[1].as_str(), "-c") {
            history.clear();
            let v: Vec<ShellAction> = Vec::new();
            proof {
                assert(action_views(v@) =~= Seq::<ActionModel>::empty());
                assert(seq_views(history@) =~= Seq::<Seq<char>>::empty());
            }
            return (false, v);
        }
        match crate::doc::parse_usize(toks[1].as_str()) {
            None => {
                return (false, print_action("Error: history usage: history [-c]/[%d]"));
            },
            Some(i) => {
                if i >= history.len() {
                    return (false, print_action("Error: arg out of bounds"));
                }
                let entry = history[i].clone();
                proof {
                    assert(seq_views(old(history)@)[i as int] == entry@);
                    assert(ws_tokens(entry@).len() > 0);
                }
                let etoks = tokenize(entry.as_str());
                let trimmed = trim_owned(entry.as_str());
                history.push(trimmed);
                proof {
                    assert(seq_views(history@) =~= seq_views(old(history)@).push(trim_of(entry@)));
                    assert(seq_views(etoks@) =~= ws_tokens(entry@));
                }
                let d = dispatch(&etoks, path);
                return (false, d.1);
            },
        }
    }
    (false, print_action("Error: history usage: history [-c]/[%d]"))
}

} // verus!

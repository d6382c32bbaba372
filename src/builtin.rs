use crate::command::CommandParts;
use crate::error::ShellError;
use crate::text::{chars_of, owned, push_char, push_str, same_text, string_from, string_views};
use vstd::prelude::*;

verus! {

/// The commands that the shell carries out itself.
#[derive(Clone, Copy, Debug, PartialEq, Eq, Structural)]
pub enum Builtin {
    Cd,
    Echo,
    Pwd,
    Exit,
    Type,
    History,
}

/// The name that invokes a builtin command.
pub open spec fn builtin_name(b: Builtin) -> Seq<char> {
    match b {
        Builtin::Cd => seq!['c', 'd'],
        Builtin::Echo => seq!['e', 'c', 'h', 'o'],
        Builtin::Pwd => seq!['p', 'w', 'd'],
        Builtin::Exit => seq!['e', 'x', 'i', 't'],
        Builtin::Type => seq!['t', 'y', 'p', 'e'],
        Builtin::History => seq!['h', 'i', 's', 't', 'o', 'r', 'y'],
    }
}

/// The builtin command that `name` invokes, if any.
pub open spec fn builtin_named(name: Seq<char>) -> Option<Builtin> {
    if name == seq!['c', 'd'] {
        Some(Builtin::Cd)
    } else if name == seq!['e', 'c', 'h', 'o'] {
        Some(Builtin::Echo)
    } else if name == seq!['p', 'w', 'd'] {
        Some(Builtin::Pwd)
    } else if name == seq!['e', 'x', 'i', 't'] {
        Some(Builtin::Exit)
    } else if name == seq!['t', 'y', 'p', 'e'] {
        Some(Builtin::Type)
    } else if name == seq!['h', 'i', 's', 't', 'o', 'r', 'y'] {
        Some(Builtin::History)
    } else {
        None
    }
}

/// Different builtin commands have different names.
pub proof fn lemma_builtin_names_distinct(a: Builtin, b: Builtin)
    ensures
        builtin_name(a) == builtin_name(b) ==> a == b,
        builtin_named(builtin_name(a)) == Some(a),
{
}

/// What the shell knows when it runs a builtin command.
pub struct ShellContext {
    /// The current working directory.
    pub working_dir: String,
    /// The home directory, when the environment names one.
    pub home: Option<String>,
}

/// What running a builtin command asks the shell to do.
#[derive(Debug, PartialEq, Eq)]
pub enum BuiltinAction {
    /// Show this text; an empty text shows nothing.
    Print(String),
    /// Make this path the working directory.
    ChangeDirectory(String),
    /// End the shell with this status.
    Exit(i32),
    /// Look this name up on the search path and report it with [`type_report`].
    Locate(String),
}

/// The words joined with `sep` between them.
pub open spec fn joined(ws: Seq<Seq<char>>, sep: Seq<char>) -> Seq<char>
    decreases ws.len(),
{
    if ws.len() == 0 {
        seq![]
    } else if ws.len() == 1 {
        ws[0]
    } else {
        joined(ws.drop_last(), sep) + sep + ws.last()
    }
}

/// The directory that `cd` with arguments `args` goes to: the home directory
/// without an argument or for `~`, the home directory followed by the rest of
/// an argument that starts with `~/`, and the argument itself otherwise.
/// Nothing when the home directory is needed and unknown.
pub open spec fn cd_target(args: Seq<Seq<char>>, home: Option<Seq<char>>) -> Option<Seq<char>> {
    if args.len() == 0 || args[0] == seq!['~'] {
        home
    } else if args[0].len() >= 2 && args[0][0] == '~' && args[0][1] == '/' {
        match home {
            Some(h) => Some(h + args[0].drop_first()),
            None => None,
        }
    } else {
        Some(args[0])
    }
}

/// Whether `c` is an ASCII decimal digit.
pub open spec fn is_digit(c: char) -> bool {
    '0' <= c <= '9'
}

/// The value of a run of decimal digits.
pub open spec fn digits_value(ds: Seq<char>) -> int
    decreases ds.len(),
{
    if ds.len() == 0 {
        0
    } else {
        digits_value(ds.drop_last()) * 10 + (ds.last() as u32 - '0' as u32)
    }
}

/// Every character is a decimal digit.
pub open spec fn all_digits(ds: Seq<char>) -> bool {
    forall|i: int| 0 <= i < ds.len() ==> is_digit(#[trigger] ds[i])
}

/// The digits that follow the sign, if any, of a decimal integer.
pub open spec fn unsigned_part(s: Seq<char>) -> Seq<char> {
    if s.len() > 0 && (s[0] == '-' || s[0] == '+') {
        s.drop_first()
    } else {
        s
    }
}

/// A decimal integer with an optional `+` or `-` sign and at least one digit,
/// when it fits in an `i32`.
pub open spec fn parse_i32_spec(s: Seq<char>) -> Option<i32> {
    let negative = s.len() > 0 && s[0] == '-';
    let ds = unsigned_part(s);
    let v = if negative {
        -digits_value(ds)
    } else {
        digits_value(ds)
    };
    if ds.len() > 0 && all_digits(ds) && i32::MIN <= v <= i32::MAX {
        Some(v as i32)
    } else {
        None
    }
}

/// The status that `exit` ends the shell with: its first argument read as a
/// decimal `i32`, or 0.
pub open spec fn exit_status(args: Seq<Seq<char>>) -> i32 {
    if args.len() > 0 {
        match parse_i32_spec(args[0]) {
            Some(v) => v,
            None => 0,
        }
    } else {
        0
    }
}

/// What running builtin `b` with `args` does, given the working directory and
/// the home directory.
pub open spec fn builtin_outcome(
    b: Builtin,
    args: Seq<Seq<char>>,
    working_dir: Seq<char>,
    home: Option<Seq<char>>,
    r: Result<BuiltinAction, ShellError>,
) -> bool {
    match b {
        Builtin::Cd => match cd_target(args, home) {
            Some(t) => r matches Ok(BuiltinAction::ChangeDirectory(p)) && p@ == t,
            None => r matches Err(ShellError::EnvVarNotFound(v)) && v@ == "HOME"@,
        },
        Builtin::Echo => r matches Ok(BuiltinAction::Print(s)) && s@ == joined(args, " "@),
        Builtin::Pwd => r matches Ok(BuiltinAction::Print(s)) && s@ == working_dir,
        Builtin::Exit => r == Ok::<BuiltinAction, ShellError>(BuiltinAction::Exit(exit_status(args))),
        Builtin::Type => if args.len() == 0 {
            r matches Ok(BuiltinAction::Print(s)) && s@.len() == 0
        } else if builtin_named(args[0]) is Some {
            r matches Ok(BuiltinAction::Print(s)) && s@ == args[0] + " is a shell builtin"@
        } else {
            r matches Ok(BuiltinAction::Locate(n)) && n@ == args[0]
        },
        Builtin::History => r matches Ok(BuiltinAction::Print(s)) && s@.len() == 0,
    }
}

/// A command that the shell carries out itself.
pub trait BuiltinCommand {
    /// The name that invokes the command.
    spec fn spec_name(&self) -> Seq<char>;

    /// Whether `r` is what the command does with `args` in `ctx`.
    spec fn spec_outcome(
        &self,
        args: Seq<Seq<char>>,
        ctx: ShellContext,
        r: Result<BuiltinAction, ShellError>,
    ) -> bool;

    /// The name that invokes the command.
    fn name(&self) -> (r: &'static str)
        ensures
            r@ == self.spec_name(),
    ;

    /// Runs the command with arguments `args`, not counting the command name.
    fn execute(&self, args: &Vec<String>, ctx: &ShellContext) -> (r: Result<BuiltinAction, ShellError>)
        ensures
            self.spec_outcome(string_views(args@), *ctx, r),
    ;
}

/// The words of `args` joined by single spaces.
fn join_args(args: &Vec<String>) -> (r: String)
    ensures
        r@ == joined(string_views(args@), " "@),
{
    let ghost ws = string_views(args@);
    let mut r = String::new();
    if args.len() == 0 {
        assert(r@ =~= joined(ws, " "@));
        return r;
    }
    push_str(&mut r, args[0].as_str());
    assert(ws.take(1).drop_last() =~= Seq::<Seq<char>>::empty());
    assert(r@ =~= joined(ws.take(1), " "@));
    let mut i: usize = 1;
    while i < args.len()
        invariant
            ws == string_views(args@),
            1 <= i <= args.len(),
            r@ == joined(ws.take(i as int), " "@),
        decreases args.len() - i,
    {
        push_str(&mut r, " ");
        push_str(&mut r, args[i].as_str());
        assert(ws.take(i + 1).drop_last() =~= ws.take(i as int));
        assert(r@ =~= joined(ws.take(i + 1), " "@));
        i = i + 1;
    }
    assert(ws.take(i as int) =~= ws);
    r
}

/// Reads a decimal `i32` with an optional sign, as `str::parse` does.
pub fn parse_i32(s: &str) -> (r: Option<i32>)
    ensures
        r == parse_i32_spec(s@),
{
    let cs = chars_of(s);
    let negative = cs.len() > 0 && cs[0] == '-';
    let start: usize = if cs.len() > 0 && (cs[0] == '-' || cs[0] == '+') {
        1
    } else {
        0
    };
    let ghost ds = cs@.subrange(start as int, cs@.len() as int);
    assert(ds =~= unsigned_part(s@));
    if start == cs.len() {
        return None;
    }
    let mut value: i64 = 0;
    let mut i: usize = start;
    assert(cs@.subrange(start as int, start as int) =~= Seq::<char>::empty());
    while i < cs.len()
        invariant
            cs@ == s@,
            start == (if s@.len() > 0 && (s@[0] == '-' || s@[0] == '+') {
                1int
            } else {
                0int
            }),
            negative == (s@.len() > 0 && s@[0] == '-'),
            start <= i <= cs.len(),
            ds == cs@.subrange(start as int, cs@.len() as int),
            ds == unsigned_part(s@),
            0 <= value <= 2147483648,
            value == digits_value(cs@.subrange(start as int, i as int)),
            forall|k: int| start <= k < i ==> is_digit(#[trigger] cs@[k]),
        decreases cs.len() - i,
    {
        let c = cs[i];
        if !('0' <= c && c <= '9') {
            proof {
                assert(ds[i - start] == cs@[i as int]);
                assert(!is_digit(ds[i - start]));
                assert(!all_digits(ds));
            }
            return None;
        }
        let d = (c as u32 - '0' as u32) as i64;
        let ghost prefix = cs@.subrange(start as int, i + 1);
        assert(prefix.drop_last() =~= cs@.subrange(start as int, i as int));
        assert(value * 10 + d <= 21474836489) by (nonlinear_arith)
            requires
                value <= 2147483648,
                d <= 9,
        ;
        value = value * 10 + d;
        i = i + 1;
        if value > 2147483648 {
            proof {
                if all_digits(ds) {
                    assert(cs@.subrange(start as int, i as int).is_prefix_of(ds));
                    lemma_digits_value_grows(cs@.subrange(start as int, i as int), ds);
                    assert(digits_value(ds) > 2147483648);
                }
            }
            return None;
        }
    }
    assert(cs@.subrange(start as int, i as int) =~= ds);
    assert(forall|k: int| 0 <= k < ds.len() ==> #[trigger] ds[k] == cs@[k + start]);
    if negative {
        Some((-value) as i32)
    } else if value <= 2147483647 {
        Some(value as i32)
    } else {
        None
    }
}

/// A run of digits is worth no less than any run of digits it begins.
proof fn lemma_digits_value_grows(prefix: Seq<char>, ds: Seq<char>)
    requires
        prefix.is_prefix_of(ds),
        forall|i: int| 0 <= i < ds.len() ==> is_digit(#[trigger] ds[i]),
    ensures
        digits_value(prefix) <= digits_value(ds),
    decreases ds.len(),
{
    if prefix.len() < ds.len() {
        assert(prefix.is_prefix_of(ds.drop_last()));
        assert(forall|i: int| 0 <= i < ds.drop_last().len() ==> #[trigger] ds.drop_last()[i] == ds[i]);
        lemma_digits_value_grows(prefix, ds.drop_last());
        lemma_digits_value_nonnegative(ds.drop_last());
        assert(is_digit(ds.last()));
    } else {
        assert(prefix =~= ds);
    }
}

proof fn lemma_digits_value_nonnegative(ds: Seq<char>)
    requires
        forall|i: int| 0 <= i < ds.len() ==> is_digit(#[trigger] ds[i]),
    ensures
        digits_value(ds) >= 0,
    decreases ds.len(),
{
    if ds.len() > 0 {
        assert(forall|i: int| 0 <= i < ds.drop_last().len() ==> #[trigger] ds.drop_last()[i] == ds[i]);
        lemma_digits_value_nonnegative(ds.drop_last());
        assert(is_digit(ds.last()));
    }
}

/// Where `cd` with `args` goes, or the error when the home directory is needed
/// and not known.
fn resolve_cd(args: &Vec<String>, home: &Option<String>) -> (r: Result<String, ShellError>)
    ensures
        match cd_target(
            string_views(args@),
            match home {
                Some(h) => Some(h@),
                None => None,
            },
        ) {
            Some(t) => r matches Ok(p) && p@ == t,
            None => r matches Err(ShellError::EnvVarNotFound(v)) && v@ == "HOME"@,
        },
{
    let mut tilde = false;
    let mut under_home = false;
    if args.len() > 0 {
        let cs = chars_of(args[0].as_str());
        tilde = cs.len() == 1 && cs[0] == '~';
        under_home = cs.len() >= 2 && cs[0] == '~' && cs[1] == '/';
        assert(tilde == (args@[0]@ =~= seq!['~']));
        if !tilde && !under_home {
            return Ok(args[0].clone());
        }
        if under_home {
            return match home {
                Some(h) => {
                    let mut t = h.clone();
                    push_str(&mut t, string_from(&cs, 1).as_str());
                    assert(cs@.subrange(1, cs@.len() as int) =~= cs@.drop_first());
                    Ok(t)
                },
                None => Err(ShellError::EnvVarNotFound(owned("HOME"))),
            };
        }
    }
    match home {
        Some(h) => Ok(h.clone()),
        None => Err(ShellError::EnvVarNotFound(owned("HOME"))),
    }
}

impl BuiltinCommand for Builtin {
    open spec fn spec_name(&self) -> Seq<char> {
        builtin_name(*self)
    }

    open spec fn spec_outcome(
        &self,
        args: Seq<Seq<char>>,
        ctx: ShellContext,
        r: Result<BuiltinAction, ShellError>,
    ) -> bool {
        builtin_outcome(
            *self,
            args,
            ctx.working_dir@,
            match ctx.home {
                Some(h) => Some(h@),
                None => None,
            },
            r,
        )
    }

    fn name(&self) -> (r: &'static str) {
        proof {
            reveal_strlit("cd");
            reveal_strlit("echo");
            reveal_strlit("pwd");
            reveal_strlit("exit");
            reveal_strlit("type");
            reveal_strlit("history");
        }
        match self {
            Builtin::Cd => "cd",
            Builtin::Echo => "echo",
            Builtin::Pwd => "pwd",
            Builtin::Exit => "exit",
            Builtin::Type => "type",
            Builtin::History => "history",
        }
    }

    fn execute(&self, args: &Vec<String>, ctx: &ShellContext) -> (r: Result<BuiltinAction, ShellError>) {
        match self {
            Builtin::Cd => match resolve_cd(args, &ctx.home) {
                Ok(t) => Ok(BuiltinAction::ChangeDirectory(t)),
                Err(e) => Err(e),
            },
            Builtin::Echo => Ok(BuiltinAction::Print(join_args(args))),
            Builtin::Pwd => Ok(BuiltinAction::Print(ctx.working_dir.clone())),
            Builtin::Exit => {
                let status = if args.len() > 0 {
                    match parse_i32(args[0].as_str()) {
                        Some(v) => v,
                        None => 0,
                    }
                } else {
                    0
                };
                Ok(BuiltinAction::Exit(status))
            },
            Builtin::Type => {
                if args.len() == 0 {
                    Ok(BuiltinAction::Print(String::new()))
                } else if Builtin::from_name(args[0].as_str()).is_some() {
                    let mut s = args[0].clone();
                    push_str(&mut s, " is a shell builtin");
                    Ok(BuiltinAction::Print(s))
                } else {
                    Ok(BuiltinAction::Locate(args[0].clone()))
                }
            },
            Builtin::History => Ok(BuiltinAction::Print(String::new())),
        }
    }
}

impl Builtin {
    /// The builtin command that `name` invokes, if any.
    pub fn from_name(name: &str) -> (r: Option<Builtin>)
        ensures
            r == builtin_named(name@),
    {
        proof {
            reveal_strlit("cd");
            reveal_strlit("echo");
            reveal_strlit("pwd");
            reveal_strlit("exit");
            reveal_strlit("type");
            reveal_strlit("history");
            assert("cd"@ =~= seq!['c', 'd']);
            assert("echo"@ =~= seq!['e', 'c', 'h', 'o']);
            assert("pwd"@ =~= seq!['p', 'w', 'd']);
            assert("exit"@ =~= seq!['e', 'x', 'i', 't']);
            assert("type"@ =~= seq!['t', 'y', 'p', 'e']);
            assert("history"@ =~= seq!['h', 'i', 's', 't', 'o', 'r', 'y']);
        }
        if same_text(name, "cd") {
            Some(Builtin::Cd)
        } else if same_text(name, "echo") {
            Some(Builtin::Echo)
        } else if same_text(name, "pwd") {
            Some(Builtin::Pwd)
        } else if same_text(name, "exit") {
            Some(Builtin::Exit)
        } else if same_text(name, "type") {
            Some(Builtin::Type)
        } else if same_text(name, "history") {
            Some(Builtin::History)
        } else {
            None
        }
    }
}

/// What `type` reports for `name` once the search path has been looked at:
/// where the executable is, or that there is none.
pub fn type_report(name: &str, location: Option<String>) -> (r: String)
    ensures
        r@ == match location {
            Some(p) => name@ + " is "@ + p@,
            None => name@ + ": not found"@,
        },
{
    let mut r = owned(name);
    match location {
        Some(p) => {
            push_str(&mut r, " is ");
            push_str(&mut r, p.as_str());
        },
        None => {
            push_str(&mut r, ": not found");
        },
    }
    r
}

/// What `cd` reports when it cannot enter `target`.
pub fn cd_failure_message(target: &str) -> (r: String)
    ensures
        r@ == "cd: "@ + target@ + ": No such file or directory"@,
{
    let mut r = owned("cd: ");
    push_str(&mut r, target);
    push_str(&mut r, ": No such file or directory");
    r
}

/// Where the text that a builtin command produced goes.
#[derive(Debug, PartialEq, Eq)]
pub enum OutputRoute {
    /// Show it on the terminal.
    Show,
    /// Write it, with a line end, to this file (appending when the flag is
    /// set) and show nothing.
    WriteFile(String, bool),
    /// Show it, and create this file empty: builtin commands write nothing to
    /// standard error.
    ShowAndCreate(String),
}

/// Where the text of a builtin command goes under the redirections of `cmd`:
/// a standard output redirection takes it; otherwise a standard error
/// redirection only creates its file.
pub fn builtin_output_route(cmd: &CommandParts) -> (r: OutputRoute)
    ensures
        match cmd.output_redirect {
            Some((p, a)) => r matches OutputRoute::WriteFile(q, b) && q@ == p@ && b == a,
            None => match cmd.error_redirect {
                Some((p, _)) => r matches OutputRoute::ShowAndCreate(q) && q@ == p@,
                None => r == OutputRoute::Show,
            },
        },
{
    match &cmd.output_redirect {
        Some((path, append)) => OutputRoute::WriteFile(path.clone(), *append),
        None => match &cmd.error_redirect {
            Some((path, _)) => OutputRoute::ShowAndCreate(path.clone()),
            None => OutputRoute::Show,
        },
    }
}

/// The builtin commands that the shell knows, each under its own name.
pub struct BuiltinRegistry {
    commands: Vec<Builtin>,
}

impl BuiltinRegistry {
    #[verifier::type_invariant]
    spec fn inv(&self) -> bool {
        self.commands@.no_duplicates()
    }

    /// The registered commands.
    pub closed spec fn registered(&self) -> Set<Builtin> {
        self.commands@.to_set()
    }

    /// A registry of every builtin command.
    pub fn new() -> (r: Self)
        ensures
            r.registered() == set![
                Builtin::Cd,
                Builtin::Echo,
                Builtin::Pwd,
                Builtin::Exit,
                Builtin::Type,
                Builtin::History,
            ],
    {
        let mut registry = BuiltinRegistry { commands: Vec::new() };
        registry.register(Builtin::Cd);
        registry.register(Builtin::Echo);
        registry.register(Builtin::Pwd);
        registry.register(Builtin::Exit);
        registry.register(Builtin::Type);
        registry.register(Builtin::History);
        assert(registry.registered() =~= set![
            Builtin::Cd,
            Builtin::Echo,
            Builtin::Pwd,
            Builtin::Exit,
            Builtin::Type,
            Builtin::History,
        ]);
        registry
    }

    /// Registers `command` under its name; registering it again changes nothing.
    pub fn register(&mut self, command: Builtin)
        ensures
            final(self).registered() == old(self).registered().insert(command),
    {
        proof {
            use_type_invariant(&*self);
        }
        let mut i: usize = 0;
        while i < self.commands.len()
            invariant
                i <= self.commands.len(),
                forall|k: int| 0 <= k < i ==> self.commands@[k] != command,
            decreases self.commands.len() - i,
        {
            if self.commands[i] == command {
                assert(self.commands@.to_set().contains(command));
                assert(self.registered().insert(command) =~= self.registered());
                return;
            }
            i = i + 1;
        }
        let ghost before = self.commands@;
        let mut commands: Vec<Builtin> = Vec::new();
        std::mem::swap(&mut commands, &mut self.commands);
        commands.push(command);
        self.commands = commands;
        proof {
            before.lemma_push_to_set_commute(command);
        }
    }

    /// The registered command that `name` invokes, if any.
    pub fn get_command(&self, name: &str) -> (r: Option<Builtin>)
        ensures
            match r {
                Some(b) => self.registered().contains(b) && builtin_name(b) == name@,
                None => forall|b: Builtin| #[trigger] self.registered().contains(b)
                    ==> builtin_name(b) != name@,
            },
    {
        match Builtin::from_name(name) {
            Some(b) => {
                let mut i: usize = 0;
                while i < self.commands.len()
                    invariant
                        Some(b) == builtin_named(name@),
                        i <= self.commands.len(),
                        forall|k: int| 0 <= k < i ==> self.commands@[k] != b,
                    decreases self.commands.len() - i,
                {
                    if self.commands[i] == b {
                        proof {
                            lemma_builtin_names_distinct(b, b);
                            assert(self.commands@.to_set().contains(b));
                        }
                        return Some(b);
                    }
                    i = i + 1;
                }
                proof {
                    assert forall|c: Builtin| #[trigger] self.registered().contains(c) implies builtin_name(c)
                        != name@ by {
                        lemma_builtin_names_distinct(c, b);
                        lemma_builtin_names_distinct(b, b);
                    }
                }
                None
            },
            None => {
                proof {
                    assert forall|c: Builtin| #[trigger] self.registered().contains(c) implies builtin_name(c)
                        != name@ by {
                        lemma_builtin_names_distinct(c, c);
                    }
                }
                None
            },
        }
    }

    /// Whether `name` invokes a registered command.
    pub fn is_builtin(&self, name: &str) -> (r: bool)
        ensures
            r == exists|b: Builtin| #[trigger] self.registered().contains(b) && builtin_name(b) == name@,
    {
        self.get_command(name).is_some()
    }

    /// The names of the registered commands, each once, in no particular order.
    pub fn get_command_names(&self) -> (r: Vec<String>)
        ensures
            string_views(r@).no_duplicates(),
            string_views(r@).to_set() == self.registered().map(|b: Builtin| builtin_name(b)),
    {
        proof {
            use_type_invariant(self);
        }
        let mut names: Vec<String> = Vec::new();
        let mut i: usize = 0;
        while i < self.commands.len()
            invariant
                self.commands@.no_duplicates(),
                i <= self.commands.len(),
                string_views(names@) == self.commands@.take(i as int).map_values(
                    |b: Builtin| builtin_name(b),
                ),
            decreases self.commands.len() - i,
        {
            let b = self.commands[i];
            let n = owned(b.name());
            assert(n@ == builtin_name(b));
            let ghost prev = names@;
            names.push(n);
            assert(string_views(names@) =~= string_views(prev).push(n@));
            assert(self.commands@.take(i + 1) =~= self.commands@.take(i as int).push(b));
            assert(string_views(names@) =~= self.commands@.take(i + 1).map_values(
                |b: Builtin| builtin_name(b),
            ));
            i = i + 1;
        }
        proof {
            let cs = self.commands@;
            assert(cs.take(i as int) =~= cs);
            let ns = string_views(names@);
            assert forall|x: int, y: int| 0 <= x < ns.len() && 0 <= y < ns.len() && x != y implies ns[x]
                != ns[y] by {
                lemma_builtin_names_distinct(cs[x], cs[y]);
            }
            assert(ns.to_set() =~= cs.to_set().map(|b: Builtin| builtin_name(b))) by {
                assert forall|n: Seq<char>| ns.to_set().contains(n) implies cs.to_set().map(
                    |b: Builtin| builtin_name(b),
                ).contains(n) by {
                    let x = choose|x: int| 0 <= x < ns.len() && ns[x] == n;
                    assert(cs.to_set().contains(cs[x]));
                }
                assert forall|n: Seq<char>| cs.to_set().map(|b: Builtin| builtin_name(b)).contains(
                    n,
                ) implies ns.to_set().contains(n) by {
                    let b = choose|b: Builtin| cs.to_set().contains(b) && builtin_name(b) == n;
                    let x = choose|x: int| 0 <= x < cs.len() && cs[x] == b;
                    assert(ns[x] == n);
                }
            }
        }
        names
    }
}

impl Default for BuiltinRegistry {
    fn default() -> (r: Self)
        ensures
            r.registered() == set![
                Builtin::Cd,
                Builtin::Echo,
                Builtin::Pwd,
                Builtin::Exit,
                Builtin::Type,
                Builtin::History,
            ],
    {
        Self::new()
    }
}

} // verus!

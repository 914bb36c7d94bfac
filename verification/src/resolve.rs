//! The resolver: walks the token stream against the argument model,
//! binds values to declared names, accumulates repeatable flags, selects
//! the active subcommand, and collects diagnostics without failing fast.

use crate::model::{ArgSpec, Arity, CommandSpec};
use crate::token::{views_of, Token, TokenV};
use vstd::prelude::*;

verus! {

/// The mathematical form of one resolved binding.
pub enum BindV {
    Absent,
    Bool(bool),
    Count(u64),
    Value(Seq<char>),
}

/// The resolved value for one declared argument.
#[derive(Debug, PartialEq, Eq)]
pub enum Binding {
    /// Nothing bound; the map simply lacks the key.
    Absent,
    /// A boolean flag was present.
    Bool(bool),
    /// A counted flag occurred this many times (saturating).
    Count(u64),
    /// A raw textual value, coerced later by the validator.
    Value(String),
}

impl View for Binding {
    type V = BindV;

    open spec fn view(&self) -> BindV {
        match self {
            Binding::Absent => BindV::Absent,
            Binding::Bool(b) => BindV::Bool(*b),
            Binding::Count(n) => BindV::Count(*n),
            Binding::Value(s) => BindV::Value(s@),
        }
    }
}

/// What went wrong, as a machine-readable category.
#[derive(Clone, Copy, Debug, PartialEq, Eq, Structural)]
pub enum DiagKind {
    UnknownFlag,
    MissingValue,
    TypeMismatch,
    MissingRequired,
    UnexpectedPositional,
    AmbiguousShortFlag,
    UnknownSubcommand,
}

/// The mathematical form of a diagnostic: its kind and the offending
/// token text or declaration name.
pub struct DiagV {
    pub kind: DiagKind,
    pub subject: Seq<char>,
}

/// A structured parse or validation failure.
#[derive(Debug)]
pub struct Diagnostic {
    /// The category of the failure.
    pub kind: DiagKind,
    /// The offending raw token text or declaration name.
    pub subject: String,
    /// Human-readable detail; never interpreted and not part of the model.
    pub detail: String,
}

impl View for Diagnostic {
    type V = DiagV;

    open spec fn view(&self) -> DiagV {
        DiagV { kind: self.kind, subject: self.subject@ }
    }
}

/// The views of a sequence of diagnostics.
pub open spec fn diag_views(ds: Seq<Diagnostic>) -> Seq<DiagV> {
    ds.map_values(|d: Diagnostic| d@)
}

/// One entry of the binding map.
#[derive(Debug)]
pub struct BindEntry {
    pub name: String,
    pub value: Binding,
}

/// The resolver's output map from declared argument name to binding.
#[derive(Debug)]
pub struct Bindings {
    pub entries: Vec<BindEntry>,
}

impl View for Bindings {
    type V = Seq<(Seq<char>, BindV)>;

    open spec fn view(&self) -> Seq<(Seq<char>, BindV)> {
        self.entries@.map_values(|e: BindEntry| (e.name@, e.value@))
    }
}

/// Position of the first entry keyed `name` at or after `i`, or the
/// length when there is none.
pub open spec fn key_index_from(bs: Seq<(Seq<char>, BindV)>, name: Seq<char>, i: int) -> int
    decreases bs.len() - i when 0 <= i <= bs.len()
{
    if i >= bs.len() {
        bs.len() as int
    } else if bs[i].0 == name {
        i
    } else {
        key_index_from(bs, name, i + 1)
    }
}

/// The binding stored under `name`, or `Absent` when the key is missing.
pub open spec fn lookup_bind(bs: Seq<(Seq<char>, BindV)>, name: Seq<char>) -> BindV {
    let k = key_index_from(bs, name, 0);
    if k < bs.len() {
        bs[k].1
    } else {
        BindV::Absent
    }
}

/// The map with `name` bound to `v`: the first entry keyed `name` is
/// replaced, or a new entry is appended.
pub open spec fn set_bind(
    bs: Seq<(Seq<char>, BindV)>,
    name: Seq<char>,
    v: BindV,
) -> Seq<(Seq<char>, BindV)> {
    let k = key_index_from(bs, name, 0);
    if k < bs.len() {
        bs.update(k, (name, v))
    } else {
        bs.push((name, v))
    }
}

/// The next value of a counted flag: one on first occurrence, then a
/// saturating increment.
pub open spec fn bumped(b: BindV) -> BindV {
    match b {
        BindV::Count(n) => BindV::Count(
            if n == u64::MAX {
                n
            } else {
                (n + 1) as u64
            },
        ),
        _ => BindV::Count(1),
    }
}

proof fn lemma_key_index_from(bs: Seq<(Seq<char>, BindV)>, name: Seq<char>, i: int, k: int)
    requires
        0 <= i <= k <= bs.len(),
        forall|j: int| i <= j < k ==> (#[trigger] bs[j]).0 != name,
        k == bs.len() || bs[k].0 == name,
    ensures
        key_index_from(bs, name, i) == k,
    decreases k - i,
{
    if i < k {
        lemma_key_index_from(bs, name, i + 1, k);
    }
}

impl Bindings {
    /// An empty binding map.
    pub fn new() -> (r: Bindings)
        ensures
            r@ == Seq::<(Seq<char>, BindV)>::empty(),
    {
        let r = Bindings { entries: Vec::new() };
        proof {
            assert(r@ =~= Seq::<(Seq<char>, BindV)>::empty());
        }
        r
    }

    /// Position of the entry keyed `name`, if any.
    fn find(&self, name: &String) -> (r: Option<usize>)
        ensures
            match r {
                Some(i) => i < self@.len() && key_index_from(self@, name@, 0) == i,
                None => key_index_from(self@, name@, 0) == self@.len(),
            },
    {
        let n = self.entries.len();
        let mut i: usize = 0;
        while i < n && !(self.entries[i].name == *name)
            invariant
                0 <= i <= n == self.entries@.len(),
                forall|j: int| 0 <= j < i ==> (#[trigger] self@[j]).0 != name@,
            decreases n - i,
        {
            proof {
                assert(self@[i as int].0 == self.entries@[i as int].name@);
            }
            i = i + 1;
        }
        if i < n {
            proof {
                assert(self@[i as int].0 == self.entries@[i as int].name@);
                lemma_key_index_from(self@, name@, 0, i as int);
            }
            Some(i)
        } else {
            proof {
                lemma_key_index_from(self@, name@, 0, n as int);
            }
            None
        }
    }

    /// The binding stored under `name`, if any.
    pub fn get(&self, name: &String) -> (r: Option<&Binding>)
        ensures
            match r {
                Some(b) => lookup_bind(self@, name@) == b@,
                None => lookup_bind(self@, name@) == BindV::Absent,
            },
    {
        match self.find(name) {
            Some(i) => Some(&self.entries[i].value),
            None => None,
        }
    }

    /// Binds `name` to `v`, replacing any earlier binding.
    pub fn set(&mut self, name: &String, v: Binding)
        ensures
            final(self)@ == set_bind(old(self)@, name@, v@),
    {
        let entry = BindEntry { name: name.clone(), value: v };
        match self.find(name) {
            Some(i) => {
                self.entries[i] = entry;
                proof {
                    assert(self@ =~= set_bind(old(self)@, name@, entry.value@));
                }
            },
            None => {
                self.entries.push(entry);
                proof {
                    assert(self@ =~= set_bind(old(self)@, name@, entry.value@));
                }
            },
        }
    }

    /// Saturating increment of the counter stored under `name`.
    pub fn bump(&mut self, name: &String)
        ensures
            final(self)@ == set_bind(old(self)@, name@, bumped(lookup_bind(old(self)@, name@))),
    {
        let next = match self.find(name) {
            Some(i) => match &self.entries[i].value {
                Binding::Count(n) => {
                    if *n == u64::MAX {
                        *n
                    } else {
                        *n + 1
                    }
                },
                _ => 1,
            },
            None => 1,
        };
        self.set(name, Binding::Count(next));
    }
}

/// The view of an optional owned string.
pub open spec fn opt_view(o: Option<String>) -> Option<Seq<char>> {
    match o {
        Some(s) => Some(s@),
        None => None,
    }
}

/// The view of an optional borrowed string.
pub open spec fn opt_ref_view(o: Option<&String>) -> Option<Seq<char>> {
    match o {
        Some(s) => Some(s@),
        None => None,
    }
}

/// Whether declaration `f` carries `name` as its long alias.
pub open spec fn is_long_alias(f: ArgSpec, name: Seq<char>) -> bool {
    f.long is Some && f.long->0@ == name
}

/// Whether declaration `f` carries `c` as its short alias.
pub open spec fn is_short_alias(f: ArgSpec, c: char) -> bool {
    f.short is Some && f.short->0 == c
}

/// Position of the first declaration with long alias `name` at or after
/// `i`, or the length when there is none.
pub open spec fn long_index_from(flags: Seq<ArgSpec>, name: Seq<char>, i: int) -> int
    decreases flags.len() - i when 0 <= i <= flags.len()
{
    if i >= flags.len() {
        flags.len() as int
    } else if is_long_alias(flags[i], name) {
        i
    } else {
        long_index_from(flags, name, i + 1)
    }
}

/// Position of the first declaration with short alias `c` at or after
/// `i`, or the length when there is none.
pub open spec fn short_index_from(flags: Seq<ArgSpec>, c: char, i: int) -> int
    decreases flags.len() - i when 0 <= i <= flags.len()
{
    if i >= flags.len() {
        flags.len() as int
    } else if is_short_alias(flags[i], c) {
        i
    } else {
        short_index_from(flags, c, i + 1)
    }
}

/// Position of the first child command named `name` at or after `i`, or
/// the length when there is none.
pub open spec fn sub_index_from(subs: Seq<CommandSpec>, name: Seq<char>, i: int) -> int
    decreases subs.len() - i when 0 <= i <= subs.len()
{
    if i >= subs.len() {
        subs.len() as int
    } else if subs[i].name@ == name {
        i
    } else {
        sub_index_from(subs, name, i + 1)
    }
}

proof fn lemma_long_index_from(flags: Seq<ArgSpec>, name: Seq<char>, i: int, k: int)
    requires
        0 <= i <= k <= flags.len(),
        forall|j: int| i <= j < k ==> !is_long_alias(#[trigger] flags[j], name),
        k == flags.len() || is_long_alias(flags[k], name),
    ensures
        long_index_from(flags, name, i) == k,
    decreases k - i,
{
    if i < k {
        lemma_long_index_from(flags, name, i + 1, k);
    }
}

proof fn lemma_short_index_from(flags: Seq<ArgSpec>, c: char, i: int, k: int)
    requires
        0 <= i <= k <= flags.len(),
        forall|j: int| i <= j < k ==> !is_short_alias(#[trigger] flags[j], c),
        k == flags.len() || is_short_alias(flags[k], c),
    ensures
        short_index_from(flags, c, i) == k,
    decreases k - i,
{
    if i < k {
        lemma_short_index_from(flags, c, i + 1, k);
    }
}

proof fn lemma_sub_index_from(subs: Seq<CommandSpec>, name: Seq<char>, i: int, k: int)
    requires
        0 <= i <= k <= subs.len(),
        forall|j: int| i <= j < k ==> (#[trigger] subs[j]).name@ != name,
        k == subs.len() || subs[k].name@ == name,
    ensures
        sub_index_from(subs, name, i) == k,
    decreases k - i,
{
    if i < k {
        lemma_sub_index_from(subs, name, i + 1, k);
    }
}

/// The resolver's state: the active command, the selected command path
/// (root first, ending at the active command), the command-name chain,
/// how many positionals the active command has consumed, the bindings,
/// the diagnostics, and whether resolution halted early.
pub struct RState {
    pub cmd: CommandSpec,
    pub cmds: Seq<CommandSpec>,
    pub chain: Seq<Seq<char>>,
    pub pos_used: int,
    pub binds: Seq<(Seq<char>, BindV)>,
    pub diags: Seq<DiagV>,
    pub halted: bool,
}

/// The effect of one flag occurrence on bindings and diagnostics.
pub struct FlagOutcome {
    pub binds: Seq<(Seq<char>, BindV)>,
    pub diags: Seq<DiagV>,
    pub halted: bool,
    pub used_next: bool,
}

/// One positional token: a child-command name descends (subcommands take
/// precedence while no positional has been consumed at this depth);
/// otherwise the text binds to the next unfilled positional declaration;
/// with none left the token is diagnosed.
pub open spec fn positional_step(st: RState, text: Seq<char>) -> RState {
    let si = sub_index_from(st.cmd.subcommands@, text, 0);
    if st.pos_used == 0 && si < st.cmd.subcommands@.len() {
        RState {
            cmd: st.cmd.subcommands@[si],
            cmds: st.cmds.push(st.cmd.subcommands@[si]),
            chain: st.chain.push(text),
            pos_used: 0,
            binds: st.binds,
            diags: st.diags,
            halted: st.halted,
        }
    } else if st.pos_used < st.cmd.positionals@.len() {
        RState {
            cmd: st.cmd,
            cmds: st.cmds,
            chain: st.chain,
            pos_used: st.pos_used + 1,
            binds: set_bind(
                st.binds,
                st.cmd.positionals@[st.pos_used].name@,
                BindV::Value(text),
            ),
            diags: st.diags,
            halted: st.halted,
        }
    } else {
        let kind = if st.pos_used == 0 && st.cmd.subcommands@.len() > 0 {
            DiagKind::UnknownSubcommand
        } else {
            DiagKind::UnexpectedPositional
        };
        RState {
            cmd: st.cmd,
            cmds: st.cmds,
            chain: st.chain,
            pos_used: st.pos_used,
            binds: st.binds,
            diags: st.diags.push(DiagV { kind, subject: text }),
            halted: st.halted,
        }
    }
}

/// One long flag: unknown aliases are diagnosed and resolution goes on;
/// an arity-one flag takes its inline value, else the following positional
/// token, else resolution halts with a missing-value diagnostic.
pub open spec fn long_step(
    cmd: CommandSpec,
    binds: Seq<(Seq<char>, BindV)>,
    diags: Seq<DiagV>,
    name: Seq<char>,
    inline: Option<Seq<char>>,
    next: Option<Seq<char>>,
) -> FlagOutcome {
    let fi = long_index_from(cmd.flags@, name, 0);
    if fi >= cmd.flags@.len() {
        FlagOutcome {
            binds,
            diags: diags.push(DiagV { kind: DiagKind::UnknownFlag, subject: name }),
            halted: false,
            used_next: false,
        }
    } else {
        let f = cmd.flags@[fi];
        match f.arity {
            Arity::NoValue => FlagOutcome {
                binds: set_bind(binds, f.name@, BindV::Bool(true)),
                diags,
                halted: false,
                used_next: false,
            },
            Arity::Counted => FlagOutcome {
                binds: set_bind(binds, f.name@, bumped(lookup_bind(binds, f.name@))),
                diags,
                halted: false,
                used_next: false,
            },
            Arity::OneValue => {
                if inline is Some {
                    FlagOutcome {
                        binds: set_bind(binds, f.name@, BindV::Value(inline->0)),
                        diags,
                        halted: false,
                        used_next: false,
                    }
                } else if next is Some {
                    FlagOutcome {
                        binds: set_bind(binds, f.name@, BindV::Value(next->0)),
                        diags,
                        halted: false,
                        used_next: true,
                    }
                } else {
                    FlagOutcome {
                        binds,
                        diags: diags.push(DiagV { kind: DiagKind::MissingValue, subject: name }),
                        halted: true,
                        used_next: false,
                    }
                }
            },
        }
    }
}

/// One character of a short cluster.  A value-taking flag is legal only
/// as the last character, where it may consume the following positional
/// token; anywhere else it is ambiguous.
pub open spec fn short_step(
    cmd: CommandSpec,
    binds: Seq<(Seq<char>, BindV)>,
    diags: Seq<DiagV>,
    c: char,
    is_last: bool,
    next: Option<Seq<char>>,
) -> FlagOutcome {
    let fi = short_index_from(cmd.flags@, c, 0);
    if fi >= cmd.flags@.len() {
        FlagOutcome {
            binds,
            diags: diags.push(DiagV { kind: DiagKind::UnknownFlag, subject: seq![c] }),
            halted: false,
            used_next: false,
        }
    } else {
        let f = cmd.flags@[fi];
        match f.arity {
            Arity::NoValue => FlagOutcome {
                binds: set_bind(binds, f.name@, BindV::Bool(true)),
                diags,
                halted: false,
                used_next: false,
            },
            Arity::Counted => FlagOutcome {
                binds: set_bind(binds, f.name@, bumped(lookup_bind(binds, f.name@))),
                diags,
                halted: false,
                used_next: false,
            },
            Arity::OneValue => {
                if !is_last {
                    FlagOutcome {
                        binds,
                        diags: diags.push(
                            DiagV { kind: DiagKind::AmbiguousShortFlag, subject: seq![c] },
                        ),
                        halted: false,
                        used_next: false,
                    }
                } else if next is Some {
                    FlagOutcome {
                        binds: set_bind(binds, f.name@, BindV::Value(next->0)),
                        diags,
                        halted: false,
                        used_next: true,
                    }
                } else {
                    FlagOutcome {
                        binds,
                        diags: diags.push(
                            DiagV { kind: DiagKind::MissingValue, subject: seq![c] },
                        ),
                        halted: true,
                        used_next: false,
                    }
                }
            },
        }
    }
}

/// The characters of a cluster from position `j` on, applied in order.
pub open spec fn cluster_step(
    cmd: CommandSpec,
    binds: Seq<(Seq<char>, BindV)>,
    diags: Seq<DiagV>,
    chars: Seq<char>,
    j: int,
    next: Option<Seq<char>>,
) -> FlagOutcome
    decreases chars.len() - j when 0 <= j <= chars.len()
{
    if j >= chars.len() {
        FlagOutcome { binds, diags, halted: false, used_next: false }
    } else {
        let one = short_step(cmd, binds, diags, chars[j], j == chars.len() - 1, next);
        if one.halted {
            one
        } else {
            let rest = cluster_step(cmd, one.binds, one.diags, chars, j + 1, next);
            FlagOutcome {
                binds: rest.binds,
                diags: rest.diags,
                halted: rest.halted,
                used_next: one.used_next || rest.used_next,
            }
        }
    }
}

/// The text of the token after position `i`, when that token is a
/// positional available as a flag value.
pub open spec fn next_value_of(toks: Seq<TokenV>, i: int) -> Option<Seq<char>> {
    if i + 1 < toks.len() {
        match toks[i + 1] {
            TokenV::Positional { text } => Some(text),
            _ => None,
        }
    } else {
        None
    }
}

/// The resolver's state after consuming the tokens from position `i` on.
pub open spec fn resolve_from(toks: Seq<TokenV>, i: int, st: RState) -> RState
    decreases toks.len() - i when 0 <= i <= toks.len()
{
    if i >= toks.len() || st.halted {
        st
    } else {
        match toks[i] {
            TokenV::Separator => resolve_from(toks, i + 1, st),
            TokenV::Positional { text } => resolve_from(toks, i + 1, positional_step(st, text)),
            TokenV::LongFlag { name, inline } => {
                let o = long_step(st.cmd, st.binds, st.diags, name, inline, next_value_of(toks, i));
                let st1 = RState {
                    cmd: st.cmd,
                    cmds: st.cmds,
                    chain: st.chain,
                    pos_used: st.pos_used,
                    binds: o.binds,
                    diags: o.diags,
                    halted: o.halted,
                };
                resolve_from(
                    toks,
                    if o.used_next && i + 1 < toks.len() {
                        i + 2
                    } else {
                        i + 1
                    },
                    st1,
                )
            },
            TokenV::ShortCluster { chars } => {
                let o = cluster_step(
                    st.cmd,
                    st.binds,
                    st.diags,
                    chars,
                    0,
                    next_value_of(toks, i),
                );
                let st1 = RState {
                    cmd: st.cmd,
                    cmds: st.cmds,
                    chain: st.chain,
                    pos_used: st.pos_used,
                    binds: o.binds,
                    diags: o.diags,
                    halted: o.halted,
                };
                resolve_from(
                    toks,
                    if o.used_next && i + 1 < toks.len() {
                        i + 2
                    } else {
                        i + 1
                    },
                    st1,
                )
            },
        }
    }
}

/// The resolver's starting state at the root command.
pub open spec fn init_state(root: CommandSpec) -> RState {
    RState {
        cmd: root,
        cmds: seq![root],
        chain: seq![root.name@],
        pos_used: 0,
        binds: Seq::empty(),
        diags: Seq::empty(),
        halted: false,
    }
}

/// The resolver's final state for a token stream against a root command.
pub open spec fn spec_resolve(toks: Seq<TokenV>, root: CommandSpec) -> RState {
    resolve_from(toks, 0, init_state(root))
}

/// Law: subcommand resolution takes precedence over positional binding.
/// While no positional has been consumed at the current depth, a
/// positional token naming a child command descends into that child —
/// extending the chain, resetting the positional cursor, and binding
/// nothing — rather than binding the name as a positional value.
pub proof fn lemma_subcommand_precedence(st: RState, text: Seq<char>)
    requires
        st.pos_used == 0,
        sub_index_from(st.cmd.subcommands@, text, 0) < st.cmd.subcommands@.len(),
    ensures
        positional_step(st, text).cmd == st.cmd.subcommands@[sub_index_from(
            st.cmd.subcommands@,
            text,
            0,
        )],
        positional_step(st, text).chain == st.chain.push(text),
        positional_step(st, text).pos_used == 0,
        positional_step(st, text).binds == st.binds,
        positional_step(st, text).diags == st.diags,
{
}

fn find_long(flags: &Vec<ArgSpec>, name: &String) -> (r: Option<usize>)
    ensures
        match r {
            Some(i) => i < flags@.len() && long_index_from(flags@, name@, 0) == i,
            None => long_index_from(flags@, name@, 0) == flags@.len(),
        },
{
    let n = flags.len();
    for i in 0..n
        invariant
            n == flags@.len(),
            forall|j: int| 0 <= j < i ==> !is_long_alias(#[trigger] flags@[j], name@),
    {
        let hit = match &flags[i].long {
            Some(l) => *l == *name,
            None => false,
        };
        if hit {
            proof {
                lemma_long_index_from(flags@, name@, 0, i as int);
            }
            return Some(i);
        }
    }
    proof {
        lemma_long_index_from(flags@, name@, 0, n as int);
    }
    None
}

fn find_short(flags: &Vec<ArgSpec>, c: char) -> (r: Option<usize>)
    ensures
        match r {
            Some(i) => i < flags@.len() && short_index_from(flags@, c, 0) == i,
            None => short_index_from(flags@, c, 0) == flags@.len(),
        },
{
    let n = flags.len();
    for i in 0..n
        invariant
            n == flags@.len(),
            forall|j: int| 0 <= j < i ==> !is_short_alias(#[trigger] flags@[j], c),
    {
        let hit = match &flags[i].short {
            Some(s) => *s == c,
            None => false,
        };
        if hit {
            proof {
                lemma_short_index_from(flags@, c, 0, i as int);
            }
            return Some(i);
        }
    }
    proof {
        lemma_short_index_from(flags@, c, 0, n as int);
    }
    None
}

fn find_sub(subs: &Vec<CommandSpec>, name: &String) -> (r: Option<usize>)
    ensures
        match r {
            Some(i) => i < subs@.len() && sub_index_from(subs@, name@, 0) == i,
            None => sub_index_from(subs@, name@, 0) == subs@.len(),
        },
{
    let n = subs.len();
    for i in 0..n
        invariant
            n == subs@.len(),
            forall|j: int| 0 <= j < i ==> (#[trigger] subs@[j]).name@ != name@,
    {
        if subs[i].name == *name {
            proof {
                lemma_sub_index_from(subs@, name@, 0, i as int);
            }
            return Some(i);
        }
    }
    proof {
        lemma_sub_index_from(subs@, name@, 0, n as int);
    }
    None
}

/// Appends one diagnostic.
pub(crate) fn push_diag(diags: &mut Vec<Diagnostic>, kind: DiagKind, subject: String, detail: &str)
    ensures
        diag_views(final(diags)@) == diag_views(old(diags)@).push(
            DiagV { kind, subject: subject@ },
        ),
{
    let ghost subject_view = subject@;
    diags.push(Diagnostic { kind, subject, detail: String::from_str(detail) });
    proof {
        assert(diag_views(diags@) =~= diag_views(old(diags)@).push(
            DiagV { kind, subject: subject_view },
        ));
    }
}

fn apply_long(
    cmd: &CommandSpec,
    name: &String,
    inline: &Option<String>,
    next: Option<&String>,
    binds: &mut Bindings,
    diags: &mut Vec<Diagnostic>,
    halted: &mut bool,
) -> (used: bool)
    requires
        *old(halted) == false,
    ensures
        ({
            let o = long_step(
                *cmd,
                old(binds)@,
                diag_views(old(diags)@),
                name@,
                opt_view(*inline),
                opt_ref_view(next),
            );
            final(binds)@ == o.binds && diag_views(final(diags)@) == o.diags && *final(halted)
                == o.halted && used == o.used_next
        }),
{
    match find_long(&cmd.flags, name) {
        None => {
            push_diag(diags, DiagKind::UnknownFlag, name.clone(), "no such flag is declared");
            false
        },
        Some(i) => {
            let f = &cmd.flags[i];
            match f.arity {
                Arity::NoValue => {
                    binds.set(&f.name, Binding::Bool(true));
                    false
                },
                Arity::Counted => {
                    binds.bump(&f.name);
                    false
                },
                Arity::OneValue => {
                    match inline {
                        Some(v) => {
                            binds.set(&f.name, Binding::Value(v.clone()));
                            false
                        },
                        None => {
                            match next {
                                Some(v) => {
                                    binds.set(&f.name, Binding::Value(v.clone()));
                                    true
                                },
                                None => {
                                    push_diag(
                                        diags,
                                        DiagKind::MissingValue,
                                        name.clone(),
                                        "the flag takes a value but none follows",
                                    );
                                    *halted = true;
                                    false
                                },
                            }
                        },
                    }
                },
            }
        },
    }
}

fn apply_cluster(
    cmd: &CommandSpec,
    cluster: &String,
    next: Option<&String>,
    binds: &mut Bindings,
    diags: &mut Vec<Diagnostic>,
    halted: &mut bool,
) -> (used: bool)
    requires
        *old(halted) == false,
    ensures
        ({
            let o = cluster_step(
                *cmd,
                old(binds)@,
                diag_views(old(diags)@),
                cluster@,
                0,
                opt_ref_view(next),
            );
            final(binds)@ == o.binds && diag_views(final(diags)@) == o.diags && *final(halted)
                == o.halted && used == o.used_next
        }),
{
    let ghost full = cluster_step(
        *cmd,
        binds@,
        diag_views(diags@),
        cluster@,
        0,
        opt_ref_view(next),
    );
    let s = cluster.as_str();
    let n = s.unicode_len();
    let mut used = false;
    let mut j: usize = 0;
    while j < n && !*halted
        invariant
            n == cluster@.len(),
            s@ == cluster@,
            0 <= j <= n,
            *halted ==> full.binds == binds@ && full.diags == diag_views(diags@) && full.halted
                && full.used_next == used,
            !*halted ==> ({
                let rest = cluster_step(
                    *cmd,
                    binds@,
                    diag_views(diags@),
                    cluster@,
                    j as int,
                    opt_ref_view(next),
                );
                full.binds == rest.binds && full.diags == rest.diags && full.halted == rest.halted
                    && full.used_next == (used || rest.used_next)
            }),
        decreases n - j,
    {
        let c = s.get_char(j);
        let is_last = j + 1 == n;
        match find_short(&cmd.flags, c) {
            None => {
                let subject = s.substring_char(j, j + 1).to_owned();
                proof {
                    assert(subject@ =~= seq![cluster@[j as int]]);
                }
                push_diag(diags, DiagKind::UnknownFlag, subject, "no such flag is declared");
            },
            Some(i) => {
                let f = &cmd.flags[i];
                match f.arity {
                    Arity::NoValue => {
                        binds.set(&f.name, Binding::Bool(true));
                    },
                    Arity::Counted => {
                        binds.bump(&f.name);
                    },
                    Arity::OneValue => {
                        if !is_last {
                            let subject = s.substring_char(j, j + 1).to_owned();
                            proof {
                                assert(subject@ =~= seq![cluster@[j as int]]);
                            }
                            push_diag(
                                diags,
                                DiagKind::AmbiguousShortFlag,
                                subject,
                                "a value-taking flag must end the cluster",
                            );
                        } else {
                            match next {
                                Some(v) => {
                                    binds.set(&f.name, Binding::Value(v.clone()));
                                    used = true;
                                },
                                None => {
                                    let subject = s.substring_char(j, j + 1).to_owned();
                                    proof {
                                        assert(subject@ =~= seq![cluster@[j as int]]);
                                    }
                                    push_diag(
                                        diags,
                                        DiagKind::MissingValue,
                                        subject,
                                        "the flag takes a value but none follows",
                                    );
                                    *halted = true;
                                },
                            }
                        }
                    },
                }
            },
        }
        j = j + 1;
    }
    used
}

/// The resolver's output: the selected command chain (root name first),
/// the bindings, the diagnostics gathered so far, and whether resolution
/// halted before consuming every token.
pub struct Resolution {
    pub chain: Vec<String>,
    pub bindings: Bindings,
    pub diagnostics: Vec<Diagnostic>,
    pub halted: bool,
}

/// Walks the token stream against the model rooted at `root`: positional
/// tokens select subcommands or bind positionals, flag tokens bind by
/// alias in the active command, unknown names are diagnosed without
/// halting, and a value-taking flag with no value halts resolution.
/// Returns the resolution and the selected command path, root first,
/// ending at the active (deepest selected) command.
pub fn resolve<'a>(root: &'a CommandSpec, tokens: &Vec<Token>) -> (r: (
    Resolution,
    Vec<&'a CommandSpec>,
))
    ensures
        ({
            let st = spec_resolve(tokens@.map_values(|t: Token| t@), *root);
            &&& views_of(r.0.chain@) == st.chain
            &&& r.0.bindings@ == st.binds
            &&& diag_views(r.0.diagnostics@) == st.diags
            &&& r.0.halted == st.halted
            &&& r.1@.map_values(|c: &CommandSpec| *c) == st.cmds
            &&& r.1@.len() > 0 && *r.1@.last() == st.cmd
        }),
{
    let ghost toks = tokens@.map_values(|t: Token| t@);
    let n = tokens.len();
    let mut chain: Vec<String> = Vec::new();
    chain.push(root.name.clone());
    let mut cur: &'a CommandSpec = root;
    let mut path: Vec<&'a CommandSpec> = Vec::new();
    path.push(root);
    let mut pos_used: usize = 0;
    let mut binds = Bindings::new();
    let mut diags: Vec<Diagnostic> = Vec::new();
    let mut halted = false;
    proof {
        assert(views_of(chain@) =~= seq![root.name@]);
        assert(path@.map_values(|c: &CommandSpec| *c) =~= seq![*root]);
        assert(diag_views(diags@) =~= Seq::<DiagV>::empty());
    }
    let mut idx: usize = 0;
    while idx < n && !halted
        invariant
            n == tokens@.len(),
            toks == tokens@.map_values(|t: Token| t@),
            toks.len() == n,
            0 <= idx <= n,
            path@.len() > 0 && *path@.last() == *cur,
            spec_resolve(toks, *root) == resolve_from(
                toks,
                idx as int,
                RState {
                    cmd: *cur,
                    cmds: path@.map_values(|c: &CommandSpec| *c),
                    chain: views_of(chain@),
                    pos_used: pos_used as int,
                    binds: binds@,
                    diags: diag_views(diags@),
                    halted,
                },
            ),
        decreases n - idx,
    {
        let ghost st_here = RState {
            cmd: *cur,
            cmds: path@.map_values(|c: &CommandSpec| *c),
            chain: views_of(chain@),
            pos_used: pos_used as int,
            binds: binds@,
            diags: diag_views(diags@),
            halted,
        };
        proof {
            assert(toks[idx as int] == tokens@[idx as int]@);
        }
        let next: Option<&String> = if idx + 1 < n {
            match &tokens[idx + 1] {
                Token::Positional { text } => Some(text),
                _ => None,
            }
        } else {
            None
        };
        proof {
            if idx + 1 < n {
                assert(toks[idx as int + 1] == tokens@[idx as int + 1]@);
            }
            assert(opt_ref_view(next) == next_value_of(toks, idx as int));
        }
        match &tokens[idx] {
            Token::Separator => {
                idx = idx + 1;
            },
            Token::Positional { text } => {
                let use_sub = if pos_used == 0 {
                    find_sub(&cur.subcommands, text)
                } else {
                    None
                };
                match use_sub {
                    Some(i) if pos_used == 0 => {
                        chain.push(text.clone());
                        cur = &cur.subcommands[i];
                        path.push(cur);
                        proof {
                            assert(views_of(chain@) =~= st_here.chain.push(text@));
                            assert(path@.map_values(|c: &CommandSpec| *c) =~= st_here.cmds.push(
                                *cur,
                            ));
                        }
                    },
                    _ => {
                        if pos_used < cur.positionals.len() {
                            binds.set(&cur.positionals[pos_used].name, Binding::Value(text.clone()));
                            pos_used = pos_used + 1;
                        } else if pos_used == 0 && cur.subcommands.len() > 0 {
                            push_diag(
                                &mut diags,
                                DiagKind::UnknownSubcommand,
                                text.clone(),
                                "no such subcommand is declared",
                            );
                        } else {
                            push_diag(
                                &mut diags,
                                DiagKind::UnexpectedPositional,
                                text.clone(),
                                "no positional argument is left to bind",
                            );
                        }
                    },
                }
                idx = idx + 1;
            },
            Token::LongFlag { name, inline } => {
                let used = apply_long(cur, name, inline, next, &mut binds, &mut diags, &mut halted);
                if used && idx + 1 < n {
                    idx = idx + 2;
                } else {
                    idx = idx + 1;
                }
            },
            Token::ShortCluster { chars } => {
                let used = apply_cluster(cur, chars, next, &mut binds, &mut diags, &mut halted);
                if used && idx + 1 < n {
                    idx = idx + 2;
                } else {
                    idx = idx + 1;
                }
            },
        }
    }
    let resolution = Resolution { chain, bindings: binds, diagnostics: diags, halted };
    (resolution, path)
}

} // verus!


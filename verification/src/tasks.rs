//! Task scripts: keywords, tasks and their parts.
use vstd::prelude::*;
use crate::attrs::{AttrMap, Attribute, Val, clone_attr};
use crate::functions::{Propagation, PropV, FunctionCtx, FunctionRet, dot_lookup, upserted, vals_of, clone_prop};
use crate::text::{push_str, owned};
use crate::registry::{NadiFunctions, resolve};

verus! {

/// Keywords of the task language.
#[derive(Clone, Copy, PartialEq, Eq, Debug, Structural)]
pub enum TaskKeyword {
    Node,
    Network,
    Env,
    Exit,
    End,
    Help,
    In,
    Match,
}

/// The keyword spelled by `s`, if any (`net` is short for `network`).
pub open spec fn keyword_of(s: Seq<char>) -> Option<TaskKeyword> {
    if s =~= seq!['n', 'o', 'd', 'e'] {
        Some(TaskKeyword::Node)
    } else if s =~= seq!['n', 'e', 't', 'w', 'o', 'r', 'k'] || s =~= seq!['n', 'e', 't'] {
        Some(TaskKeyword::Network)
    } else if s =~= seq!['e', 'n', 'v'] {
        Some(TaskKeyword::Env)
    } else if s =~= seq!['e', 'x', 'i', 't'] {
        Some(TaskKeyword::Exit)
    } else if s =~= seq!['e', 'n', 'd'] {
        Some(TaskKeyword::End)
    } else if s =~= seq!['h', 'e', 'l', 'p'] {
        Some(TaskKeyword::Help)
    } else if s =~= seq!['i', 'n'] {
        Some(TaskKeyword::In)
    } else if s =~= seq!['m', 'a', 't', 'c', 'h'] {
        Some(TaskKeyword::Match)
    } else {
        None
    }
}

/// Whether `v[from..to]` spells exactly the characters of `w`.
pub fn chars_are(v: &Vec<char>, from: usize, to: usize, w: &[char]) -> (b: bool)
    requires
        from <= to <= v.len(),
    ensures
        b == (v@.subrange(from as int, to as int) =~= w@),
{
    if to - from != w.len() {
        assert(v@.subrange(from as int, to as int).len() != w@.len());
        return false;
    }
    let mut k: usize = 0;
    while k < w.len()
        invariant
            from <= to <= v.len(),
            to - from == w.len(),
            k <= w.len(),
            forall|j: int| 0 <= j < k ==> v@[from + j] == w@[j],
        decreases w.len() - k,
    {
        if v[from + k] != w[k] {
            assert(v@.subrange(from as int, to as int)[k as int] != w@[k as int]);
            return false;
        }
        k = k + 1;
    }
    assert(v@.subrange(from as int, to as int) =~= w@);
    true
}

/// The keyword spelled by `v[from..to]`, if any.
pub fn keyword_in(v: &Vec<char>, from: usize, to: usize) -> (r: Option<TaskKeyword>)
    requires
        from <= to <= v.len(),
    ensures
        r == keyword_of(v@.subrange(from as int, to as int)),
{
    let ghost s = v@.subrange(from as int, to as int);
    if chars_are(v, from, to, &['n', 'o', 'd', 'e']) {
        Some(TaskKeyword::Node)
    } else if chars_are(v, from, to, &['n', 'e', 't', 'w', 'o', 'r', 'k']) || chars_are(
        v,
        from,
        to,
        &['n', 'e', 't'],
    ) {
        Some(TaskKeyword::Network)
    } else if chars_are(v, from, to, &['e', 'n', 'v']) {
        Some(TaskKeyword::Env)
    } else if chars_are(v, from, to, &['e', 'x', 'i', 't']) {
        Some(TaskKeyword::Exit)
    } else if chars_are(v, from, to, &['e', 'n', 'd']) {
        Some(TaskKeyword::End)
    } else if chars_are(v, from, to, &['h', 'e', 'l', 'p']) {
        Some(TaskKeyword::Help)
    } else if chars_are(v, from, to, &['i', 'n']) {
        Some(TaskKeyword::In)
    } else if chars_are(v, from, to, &['m', 'a', 't', 'c', 'h']) {
        Some(TaskKeyword::Match)
    } else {
        None
    }
}

impl TaskKeyword {
    /// The keyword spelled by `s`; other words are refused with the message
    /// `"<word> is not a keyword"`.
    pub fn from_str(s: &str) -> (r: Result<TaskKeyword, String>)
        ensures
            match r {
                Ok(k) => keyword_of(s@) == Some(k),
                Err(m) => keyword_of(s@) is None && m@ == s@ + " is not a keyword"@,
            },
    {
        let v = crate::text::chars_of(s);
        let n = v.len();
        assert(v@.subrange(0, n as int) =~= s@);
        match keyword_in(&v, 0, n) {
            Some(k) => Ok(k),
            None => {
                let mut m = owned(s);
                push_str(&mut m, " is not a keyword");
                Err(m)
            },
        }
    }

    /// The keyword's word (`network` for the network keyword).
    pub fn to_string(&self) -> (s: String)
        ensures
            s@ == keyword_word(*self),
            keyword_of(s@) == Some(*self),
    {
        let w = match self {
            TaskKeyword::Node => "node",
            TaskKeyword::Network => "network",
            TaskKeyword::Env => "env",
            TaskKeyword::Exit => "exit",
            TaskKeyword::End => "end",
            TaskKeyword::Help => "help",
            TaskKeyword::In => "in",
            TaskKeyword::Match => "match",
        };
        proof {
            reveal_strlit("node");
            reveal_strlit("network");
            reveal_strlit("env");
            reveal_strlit("exit");
            reveal_strlit("end");
            reveal_strlit("help");
            reveal_strlit("in");
            reveal_strlit("match");
        }
        owned(w)
    }

    /// A one-line description of the keyword.
    pub fn help(&self) -> (s: String)
        ensures
            s@ == keyword_help(*self),
    {
        let w = match self {
            TaskKeyword::Node => "node function",
            TaskKeyword::Network => "network function",
            TaskKeyword::Env => "environmental variables",
            TaskKeyword::Exit => "exit",
            TaskKeyword::End => "End the tasks file here (discard everything else)",
            TaskKeyword::Help => "help",
            TaskKeyword::In => "Check if value is in an array/table",
            TaskKeyword::Match => "match regex pattern with strings",
        };
        owned(w)
    }
}

/// The word of a keyword.
pub open spec fn keyword_word(k: TaskKeyword) -> Seq<char> {
    match k {
        TaskKeyword::Node => "node"@,
        TaskKeyword::Network => "network"@,
        TaskKeyword::Env => "env"@,
        TaskKeyword::Exit => "exit"@,
        TaskKeyword::End => "end"@,
        TaskKeyword::Help => "help"@,
        TaskKeyword::In => "in"@,
        TaskKeyword::Match => "match"@,
    }
}

/// The description of a keyword.
pub open spec fn keyword_help(k: TaskKeyword) -> Seq<char> {
    match k {
        TaskKeyword::Node => "node function"@,
        TaskKeyword::Network => "network function"@,
        TaskKeyword::Env => "environmental variables"@,
        TaskKeyword::Exit => "exit"@,
        TaskKeyword::End => "End the tasks file here (discard everything else)"@,
        TaskKeyword::Help => "help"@,
        TaskKeyword::In => "Check if value is in an array/table"@,
        TaskKeyword::Match => "match regex pattern with strings"@,
    }
}

/// Each keyword's word reads back as that keyword.
pub proof fn law_keyword_round_trip(k: TaskKeyword)
    ensures
        keyword_of(keyword_word(k)) == Some(k),
{
    reveal_strlit("node");
    reveal_strlit("network");
    reveal_strlit("env");
    reveal_strlit("exit");
    reveal_strlit("end");
    reveal_strlit("help");
    reveal_strlit("in");
    reveal_strlit("match");
}

/// What a task works on.
#[derive(Debug)]
pub enum TaskType {
    Node(Propagation),
    Network(Propagation),
    Env,
    Help(Option<TaskKeyword>, Option<String>),
    Exit,
}

pub enum TaskTypeV {
    Node(PropV),
    Network(PropV),
    Env,
    Help(Option<TaskKeyword>, Option<Seq<char>>),
    Exit,
}

impl View for TaskType {
    type V = TaskTypeV;

    open spec fn view(&self) -> TaskTypeV {
        match self {
            TaskType::Node(p) => TaskTypeV::Node(p@),
            TaskType::Network(p) => TaskTypeV::Network(p@),
            TaskType::Env => TaskTypeV::Env,
            TaskType::Help(k, v) => TaskTypeV::Help(*k, match v {
                Some(s) => Some(s@),
                None => None,
            }),
            TaskType::Exit => TaskTypeV::Exit,
        }
    }
}

/// The right-hand side of a task.
#[derive(Debug)]
pub enum TaskInput {
    /// nothing: the task only reads
    Empty,
    Function(FunctionCall),
    Literal(Attribute),
    Variable(String),
}

/// A call of a function: its name, arguments, and keyword arguments in
/// the order they were first given.
#[derive(Debug)]
pub struct FunctionCall {
    pub name: String,
    pub args: Vec<TaskInput>,
    pub kwargs: Vec<(String, TaskInput)>,
}

/// The mathematical form of a task input; a call is its name, arguments
/// and keyword arguments.
pub enum InputV {
    Empty,
    Function(Seq<char>, Seq<InputV>, Seq<(Seq<char>, InputV)>),
    Literal(Val),
    Variable(Seq<char>),
}

pub open spec fn input_view(t: TaskInput) -> InputV
    decreases t,
{
    match t {
        TaskInput::Empty => InputV::Empty,
        TaskInput::Function(fc) => InputV::Function(fc.name@, inputs_view(fc.args@), kwargs_view(fc.kwargs@)),
        TaskInput::Literal(a) => InputV::Literal(a@),
        TaskInput::Variable(s) => InputV::Variable(s@),
    }
}

pub open spec fn inputs_view(s: Seq<TaskInput>) -> Seq<InputV>
    decreases s,
{
    if s.len() == 0 {
        Seq::empty()
    } else {
        inputs_view(s.drop_last()).push(input_view(s.last()))
    }
}

pub open spec fn kwargs_view(s: Seq<(String, TaskInput)>) -> Seq<(Seq<char>, InputV)>
    decreases s,
{
    if s.len() == 0 {
        Seq::empty()
    } else {
        kwargs_view(s.drop_last()).push((s.last().0@, input_view(s.last().1)))
    }
}

impl View for TaskInput {
    type V = InputV;

    open spec fn view(&self) -> InputV {
        input_view(*self)
    }
}

impl View for FunctionCall {
    type V = InputV;

    open spec fn view(&self) -> InputV {
        InputV::Function(self.name@, inputs_view(self.args@), kwargs_view(self.kwargs@))
    }
}

/// `i` is the first position of `key`.
pub open spec fn first_key_at(e: Seq<(Seq<char>, InputV)>, key: Seq<char>, i: int) -> bool {
    0 <= i < e.len() && e[i].0 == key && forall|j: int| 0 <= j < i ==> #[trigger] e[j].0 != key
}

/// The keyword arguments with `key` set to `v`: in place of its first
/// occurrence where the key is there, at the end otherwise.
pub open spec fn kw_upsert(e: Seq<(Seq<char>, InputV)>, key: Seq<char>, v: InputV) -> Seq<(Seq<char>, InputV)> {
    if exists|i: int| #[trigger] first_key_at(e, key, i) {
        e.update(choose|i: int| #[trigger] first_key_at(e, key, i), (key, v))
    } else {
        e.push((key, v))
    }
}

pub proof fn lemma_kwargs_view(s: Seq<(String, TaskInput)>)
    ensures
        kwargs_view(s).len() == s.len(),
        forall|i: int| 0 <= i < s.len() ==> #[trigger] kwargs_view(s)[i] == (s[i].0@, input_view(s[i].1)),
    decreases s.len(),
{
    if s.len() > 0 {
        lemma_kwargs_view(s.drop_last());
    }
}

impl FunctionCall {
    /// A call of `name` with no arguments.
    pub fn new(name: String) -> (fc: Self)
        ensures
            fc@ == InputV::Function(name@, Seq::empty(), Seq::empty()),
    {
        let fc = FunctionCall { name, args: Vec::new(), kwargs: Vec::new() };
        assert(inputs_view(fc.args@) =~= Seq::<InputV>::empty());
        assert(kwargs_view(fc.kwargs@) =~= Seq::<(Seq<char>, InputV)>::empty());
        fc
    }

    /// Adds a positional argument.
    pub fn push_arg(&mut self, a: TaskInput)
        ensures
            final(self).name == old(self).name,
            inputs_view(final(self).args@) == inputs_view(old(self).args@).push(a@),
            final(self).kwargs == old(self).kwargs,
    {
        let ghost before = self.args@;
        self.args.push(a);
        assert(self.args@.drop_last() =~= before);
    }

    /// Sets keyword argument `key` to `v`, replacing an earlier value.
    pub fn set_kwarg(&mut self, key: String, v: TaskInput)
        ensures
            final(self).name == old(self).name,
            final(self).args == old(self).args,
            kwargs_view(final(self).kwargs@) == kw_upsert(kwargs_view(old(self).kwargs@), key@, v@),
    {
        let ghost kv = key@;
        let ghost vv = v@;
        let ghost before = kwargs_view(self.kwargs@);
        proof {
            lemma_kwargs_view(self.kwargs@);
        }
        let mut i: usize = 0;
        while i < self.kwargs.len()
            invariant
                i <= self.kwargs.len(),
                kv == key@,
                vv == v@,
                self.name == old(self).name,
                self.args == old(self).args,
                before == kwargs_view(old(self).kwargs@),
                self.kwargs == old(self).kwargs,
                before == kwargs_view(self.kwargs@),
                before.len() == self.kwargs.len(),
                forall|j: int| 0 <= j < self.kwargs.len() ==> #[trigger] before[j] == (self.kwargs@[j].0@, input_view(self.kwargs@[j].1)),
                forall|j: int| 0 <= j < i ==> #[trigger] before[j].0 != kv,
            decreases self.kwargs.len() - i,
        {
            if crate::text::str_eq(self.kwargs[i].0.as_str(), key.as_str()) {
                assert(first_key_at(before, kv, i as int));
                let ghost w = choose|j: int| #[trigger] first_key_at(before, kv, j);
                proof {
                    if w < i {
                        assert(before[w].0 != kv);
                    } else if w > i {
                        assert(before[i as int].0 != kv);
                    }
                }
                let mut kw: Vec<(String, TaskInput)> = Vec::new();
                std::mem::swap(&mut kw, &mut self.kwargs);
                kw.set(i, (key, v));
                proof {
                    lemma_kwargs_view(kw@);
                    assert(kwargs_view(kw@) =~= before.update(i as int, (kv, vv)));
                }
                self.kwargs = kw;
                return;
            }
            i = i + 1;
        }
        proof {
            if exists|j: int| #[trigger] first_key_at(before, kv, j) {
                let w = choose|j: int| #[trigger] first_key_at(before, kv, j);
                assert(before[w].0 != kv);
            }
        }
        let ghost before_e = self.kwargs@;
        self.kwargs.push((key, v));
        proof {
            assert(self.kwargs@.drop_last() =~= before_e);
        }
    }
}

/// One task of a task script.
#[derive(Debug)]
pub struct Task {
    pub ty: TaskType,
    pub attribute: Option<String>,
    pub input: TaskInput,
}

pub struct TaskV {
    pub ty: TaskTypeV,
    pub attribute: Option<Seq<char>>,
    pub input: InputV,
}

pub open spec fn opt_str_view(o: Option<String>) -> Option<Seq<char>> {
    match o {
        Some(s) => Some(s@),
        None => None,
    }
}

impl View for Task {
    type V = TaskV;

    open spec fn view(&self) -> TaskV {
        TaskV { ty: self.ty@, attribute: opt_str_view(self.attribute), input: self.input@ }
    }
}

impl Task {
    /// The task that ends a session.
    pub fn exit() -> (t: Self)
        ensures
            t@ == (TaskV { ty: TaskTypeV::Exit, attribute: None, input: InputV::Empty }),
    {
        Task { ty: TaskType::Exit, attribute: None, input: TaskInput::Empty }
    }

    /// The task that sets environment variable `var` to `val`.
    pub fn env(var: String, val: Attribute) -> (t: Self)
        ensures
            t@ == (TaskV { ty: TaskTypeV::Env, attribute: Some(var@), input: InputV::Literal(val@) }),
    {
        Task { ty: TaskType::Env, attribute: Some(var), input: TaskInput::Literal(val) }
    }

    /// The task that asks for help on a keyword or a function.
    pub fn help(kw: Option<TaskKeyword>, var: Option<String>) -> (t: Self)
        ensures
            t@ == (TaskV { ty: TaskTypeV::Help(kw, opt_str_view(var)), attribute: None, input: InputV::Empty }),
    {
        Task { ty: TaskType::Help(kw, var), attribute: None, input: TaskInput::Empty }
    }
}


// ---------------------------------------------------------------------------
// The arguments of a call.
// ---------------------------------------------------------------------------

pub proof fn lemma_inputs_view(s: Seq<TaskInput>)
    ensures
        inputs_view(s).len() == s.len(),
        forall|i: int| 0 <= i < s.len() ==> #[trigger] inputs_view(s)[i] == input_view(s[i]),
    decreases s.len(),
{
    if s.len() > 0 {
        lemma_inputs_view(s.drop_last());
    }
}

/// What input `x` gives from the attributes `t`, where the environment does
/// not decide it (`None` for a call of an environment function).
pub open spec fn input_res(t: Seq<(Seq<char>, Val)>, x: InputV) -> Option<Result<Val, Seq<char>>> {
    match x {
        InputV::Literal(v) => Some(Ok(v)),
        InputV::Variable(v) => match dot_lookup(t, v, 0) {
            Err(e) => Some(Err(e)),
            Ok(None) => Some(Err("Attribute "@ + v + " not found"@)),
            Ok(Some(a)) => Some(Ok(a)),
        },
        InputV::Empty => Some(Err("Invalid output"@)),
        InputV::Function(_, _, _) => None,
    }
}

/// No input of `xs` is a call.
pub open spec fn decided(t: Seq<(Seq<char>, Val)>, xs: Seq<InputV>) -> bool {
    forall|i: int| 0 <= i < xs.len() ==> (#[trigger] input_res(t, xs[i])) is Some
}

/// `vals` can be the values of `xs`: each input that is no call gives its
/// own value.
pub open spec fn fits(t: Seq<(Seq<char>, Val)>, xs: Seq<InputV>, vals: Seq<Val>) -> bool {
    &&& vals.len() == xs.len()
    &&& forall|i: int| 0 <= i < xs.len() && (#[trigger] input_res(t, xs[i])) is Some ==> input_res(t, xs[i]) == Some(
        Ok::<Val, Seq<char>>(vals[i]),
    )
}

/// The values of inputs that are no calls, or the first error among them.
pub open spec fn resolved(t: Seq<(Seq<char>, Val)>, xs: Seq<InputV>) -> Result<Seq<Val>, Seq<char>>
    decreases xs.len(),
{
    if xs.len() == 0 {
        Ok(Seq::empty())
    } else {
        match resolved(t, xs.drop_last()) {
            Err(e) => Err(e),
            Ok(vs) => match input_res(t, xs.last()) {
                Some(Ok(v)) => Ok(vs.push(v)),
                Some(Err(e)) => Err(e),
                None => Err(Seq::empty()),
            },
        }
    }
}

/// The inputs of keyword arguments.
pub open spec fn kw_inputs(kws: Seq<(Seq<char>, InputV)>) -> Seq<InputV> {
    kws.map_values(|p: (Seq<char>, InputV)| p.1)
}

/// The keywords paired with values.
pub open spec fn kw_pairs(kws: Seq<(Seq<char>, InputV)>, vals: Seq<Val>) -> Seq<(Seq<char>, Val)> {
    Seq::new(kws.len(), |i: int| (kws[i].0, vals[i]))
}

/// What comes of a call of environment function `name`: its value, or the
/// message that it is missing, gave nothing, or failed.
pub open spec fn env_outcome(name: Seq<char>, r: Option<FunctionRet>) -> Result<Val, Seq<char>> {
    match r {
        None => Err("Environment Function "@ + name + " not found"@),
        Some(FunctionRet::Empty) => Err("Function "@ + name + " returned no value"@),
        Some(FunctionRet::Value(a)) => Ok(a@),
        Some(FunctionRet::Error(e)) => Err(e@),
    }
}

/// The value that a call of environment function `name` gives, from what
/// the call returned (`None`: there is no such function).
pub fn env_result(name: &str, r: Option<FunctionRet>) -> (v: Result<Attribute, String>)
    ensures
        match (v, env_outcome(name@, r)) {
            (Ok(a), Ok(x)) => a@ == x,
            (Err(m), Err(x)) => m@ == x,
            _ => false,
        },
{
    match r {
        None => {
            let mut m = owned("Environment Function ");
            push_str(&mut m, name);
            push_str(&mut m, " not found");
            Err(m)
        },
        Some(FunctionRet::Empty) => {
            let mut m = owned("Function ");
            push_str(&mut m, name);
            push_str(&mut m, " returned no value");
            Err(m)
        },
        Some(FunctionRet::Value(a)) => Ok(a),
        Some(FunctionRet::Error(e)) => Err(e),
    }
}

/// Marks a value that a proof offers as the witness of a choice below.
pub open spec fn picked<T>(x: T) -> bool {
    true
}

/// The environment function that `name` calls in the registry `fs`.
pub open spec fn env_fn<E, N, W>(fs: NadiFunctions<E, N, W>, name: Seq<char>) -> Option<E> {
    resolve(fs.env_view(), fs.env_alias_view(), name)
}

/// A value or an error message, by their views.
pub open spec fn attr_res(r: Result<Attribute, String>) -> Result<Val, Seq<char>> {
    match r {
        Ok(a) => Ok(a@),
        Err(e) => Err(e@),
    }
}

/// What input `x` can give, with the attributes `t` and the propagation
/// `p`, where `call` runs the environment functions of `fs`: a literal its
/// value, a variable the attribute it names; a call the message that the
/// function is missing, or the first error among its own arguments, or what
/// the function returned when called with a context its arguments give.
pub open spec fn input_gives<E, N, W, C: Fn(&E, &FunctionCtx) -> FunctionRet>(
    fs: NadiFunctions<E, N, W>,
    call: C,
    t: Seq<(Seq<char>, Val)>,
    p: PropV,
    x: TaskInput,
    r: Result<Val, Seq<char>>,
) -> bool
    decreases x, 0int,
{
    match x {
        TaskInput::Function(fc) => match env_fn(fs, fc.name@) {
            None => r == env_outcome(fc.name@, None),
            Some(f) => {
                ||| exists|e: Seq<char>| #[trigger] picked(e) && ctx_gives(fs, call, t, p, fc, Err(e)) && r == Err::<Val, Seq<char>>(e)
                ||| exists|ctx: FunctionCtx, ret: FunctionRet| #[trigger] call_ensures(call, (&f, &ctx), ret)
                    && ctx_gives(fs, call, t, p, fc, Ok((vals_of(ctx.args@), ctx.kwargs@)))
                    && ctx.propagation@ == p
                    && r == env_outcome(fc.name@, Some(ret))
            },
        },
        _ => input_res(t, x@) == Some(r),
    }
}

/// What the arguments and keyword arguments of call `fc` can give: their
/// values (keyword arguments as a table), or the first error.
pub open spec fn ctx_gives<E, N, W, C: Fn(&E, &FunctionCtx) -> FunctionRet>(
    fs: NadiFunctions<E, N, W>,
    call: C,
    t: Seq<(Seq<char>, Val)>,
    p: PropV,
    fc: FunctionCall,
    r: Result<(Seq<Val>, Seq<(Seq<char>, Val)>), Seq<char>>,
) -> bool
    decreases fc, 0int,
{
    proof {
        broadcast use vstd::std_specs::vec::axiom_vec_decreases_to_view;
        assert(decreases_to!(fc => fc.args));
        assert(decreases_to!(fc => fc.kwargs));
    }
    ||| exists|e: Seq<char>| #[trigger] picked(e) && args_give(fs, call, t, p, fc.args@, fc.args@.len() as int, Err(e))
        && r == Err::<(Seq<Val>, Seq<(Seq<char>, Val)>), Seq<char>>(e)
    ||| exists|vs: Seq<Val>| #[trigger] picked(vs) && args_give(fs, call, t, p, fc.args@, fc.args@.len() as int, Ok(vs)) && {
        ||| exists|e: Seq<char>| #[trigger] picked(e) && kws_give(fs, call, t, p, fc.kwargs@, fc.kwargs@.len() as int, Err(e))
            && r == Err::<(Seq<Val>, Seq<(Seq<char>, Val)>), Seq<char>>(e)
        ||| exists|kv: Seq<Val>| #[trigger] picked(kv) && kws_give(fs, call, t, p, fc.kwargs@, fc.kwargs@.len() as int, Ok(kv))
            && r == Ok::<(Seq<Val>, Seq<(Seq<char>, Val)>), Seq<char>>((vs, upserted(Seq::empty(), kw_pairs(kwargs_view(fc.kwargs@), kv))))
    }
}

/// What the first `n` inputs of `xs` can give: their values in order, or
/// the first error (the inputs after it are not looked at).
pub open spec fn args_give<E, N, W, C: Fn(&E, &FunctionCtx) -> FunctionRet>(
    fs: NadiFunctions<E, N, W>,
    call: C,
    t: Seq<(Seq<char>, Val)>,
    p: PropV,
    xs: Seq<TaskInput>,
    n: int,
    r: Result<Seq<Val>, Seq<char>>,
) -> bool
    decreases xs, n,
{
    if n <= 0 {
        r == Ok::<Seq<Val>, Seq<char>>(Seq::empty())
    } else if n > xs.len() {
        false
    } else {
        ||| exists|e: Seq<char>| #[trigger] picked(e) && args_give(fs, call, t, p, xs, n - 1, Err(e)) && r == Err::<Seq<Val>, Seq<char>>(e)
        ||| exists|vs: Seq<Val>, v: Result<Val, Seq<char>>|
            #![trigger picked(vs), picked(v)]
            args_give(fs, call, t, p, xs, n - 1, Ok(vs)) && input_gives(fs, call, t, p, xs[n - 1], v)
            && r == match v {
                Ok(a) => Ok(vs.push(a)),
                Err(e) => Err(e),
            }
    }
}

/// What the first `n` keyword arguments of `kws` can give: their values in
/// order, or the first error.
pub open spec fn kws_give<E, N, W, C: Fn(&E, &FunctionCtx) -> FunctionRet>(
    fs: NadiFunctions<E, N, W>,
    call: C,
    t: Seq<(Seq<char>, Val)>,
    p: PropV,
    kws: Seq<(String, TaskInput)>,
    n: int,
    r: Result<Seq<Val>, Seq<char>>,
) -> bool
    decreases kws, n,
{
    if n <= 0 {
        r == Ok::<Seq<Val>, Seq<char>>(Seq::empty())
    } else if n > kws.len() {
        false
    } else {
        ||| exists|e: Seq<char>| #[trigger] picked(e) && kws_give(fs, call, t, p, kws, n - 1, Err(e)) && r == Err::<Seq<Val>, Seq<char>>(e)
        ||| exists|vs: Seq<Val>, v: Result<Val, Seq<char>>|
            #![trigger picked(vs), picked(v)]
            kws_give(fs, call, t, p, kws, n - 1, Ok(vs)) && input_gives(fs, call, t, p, kws[n - 1].1, v)
            && r == match v {
                Ok(a) => Ok(vs.push(a)),
                Err(e) => Err(e),
            }
    }
}

/// The value of one input: a copy of a literal, the attribute a variable
/// names (a dotted name goes into tables), or, for a call, what the
/// environment function that the call names returns when `call` runs it
/// with the context of the call's own arguments (see `input_gives`).
pub fn resolve_input<E, N, W, C: Fn(&E, &FunctionCtx) -> FunctionRet>(
    input: &TaskInput,
    attrs: &AttrMap,
    funcs: &NadiFunctions<E, N, W>,
    call: &C,
    propagation: &Propagation,
) -> (r: Result<Attribute, String>)
    requires
        forall|f: &E, c: &FunctionCtx| call.requires((f, c)),
    ensures
        input_gives(*funcs, *call, attrs@, propagation@, *input, attr_res(r)),
    decreases input, 0int,
{
    match input {
        TaskInput::Literal(v) => Ok(clone_attr(v)),
        TaskInput::Variable(v) => match attrs.attr_dot(v.as_str()) {
            Err(e) => Err(e),
            Ok(None) => {
                let mut m = owned("Attribute ");
                push_str(&mut m, v.as_str());
                push_str(&mut m, " not found");
                Err(m)
            },
            Ok(Some(a)) => Ok(clone_attr(a)),
        },
        TaskInput::Function(fc) => {
            assert(decreases_to!(input => fc));
            match funcs.env(fc.name.as_str()) {
                None => env_result(fc.name.as_str(), None),
                Some(f) => {
                    let ctx = match fc.context(attrs, funcs, call, propagation) {
                        Ok(c) => c,
                        Err(e) => {
                            assert(ctx_gives(*funcs, *call, attrs@, propagation@, *fc, Err(e@)) && picked(e@));
                            return Err(e);
                        },
                    };
                    let ret = call(f, &ctx);
                    let ghost rv = ret;
                    let r = env_result(fc.name.as_str(), Some(ret));
                    assert(call_ensures(*call, (f, &ctx), rv));
                    r
                },
            }
        },
        TaskInput::Empty => Err(owned("Invalid output")),
    }
}

impl FunctionCall {
    /// The context the call runs with: the values of its arguments and
    /// keyword arguments, in order, read from `attrs` or given by the
    /// environment functions of `funcs`, which `call` runs; the first error
    /// stops it (see `ctx_gives`).
    pub fn context<E, N, W, C: Fn(&E, &FunctionCtx) -> FunctionRet>(
        &self,
        attrs: &AttrMap,
        funcs: &NadiFunctions<E, N, W>,
        call: &C,
        propagation: &Propagation,
    ) -> (r: Result<FunctionCtx, String>)
        requires
            forall|f: &E, c: &FunctionCtx| call.requires((f, c)),
        ensures
            ctx_gives(*funcs, *call, attrs@, propagation@, *self, match r {
                Ok(c) => Ok((vals_of(c.args@), c.kwargs@)),
                Err(e) => Err(e@),
            }),
            r matches Ok(c) ==> {
                &&& fits(attrs@, inputs_view(self.args@), vals_of(c.args@))
                &&& c.propagation@ == propagation@
                &&& exists|kv: Seq<Val>| #![trigger kw_pairs(kwargs_view(self.kwargs@), kv)]
                    fits(attrs@, kw_inputs(kwargs_view(self.kwargs@)), kv)
                    && c.kwargs@ == upserted(Seq::empty(), kw_pairs(kwargs_view(self.kwargs@), kv))
            },
            decided(attrs@, inputs_view(self.args@)) && decided(attrs@, kw_inputs(kwargs_view(self.kwargs@))) ==>
                match resolved(attrs@, inputs_view(self.args@)) {
                    Err(e) => r matches Err(m) && m@ == e,
                    Ok(vs) => match resolved(attrs@, kw_inputs(kwargs_view(self.kwargs@))) {
                        Err(e) => r matches Err(m) && m@ == e,
                        Ok(kv) => r matches Ok(c) && vals_of(c.args@) == vs && c.propagation@ == propagation@
                            && c.kwargs@ == upserted(Seq::empty(), kw_pairs(kwargs_view(self.kwargs@), kv)),
                    },
                },
        decreases self, 1int,
    {
        let ghost t = attrs@;
        let ghost ins = inputs_view(self.args@);
        let ghost kws = kwargs_view(self.kwargs@);
        let ghost kin = kw_inputs(kws);
        proof {
            lemma_inputs_view(self.args@);
            lemma_kwargs_view(self.kwargs@);
        }
        let mut args: Vec<Attribute> = Vec::new();
        let mut i: usize = 0;
        assert(ins.take(0) =~= Seq::<InputV>::empty());
        assert(vals_of(args@) =~= Seq::<Val>::empty());
        while i < self.args.len()
            invariant
                i <= self.args.len(),
                t == attrs@,
                ins == inputs_view(self.args@),
                ins.len() == self.args.len(),
                forall|j: int| 0 <= j < self.args.len() ==> #[trigger] ins[j] == input_view(self.args@[j]),
                fits(t, ins.take(i as int), vals_of(args@)),
                decided(t, ins) ==> resolved(t, ins.take(i as int)) == Ok::<Seq<Val>, Seq<char>>(vals_of(args@)),
                forall|f: &E, c: &FunctionCtx| call.requires((f, c)),
                args_give(*funcs, *call, t, propagation@, self.args@, i as int, Ok(vals_of(args@))),
            decreases self.args.len() - i,
        {
            proof {
                broadcast use vstd::std_specs::vec::axiom_vec_decreases_to_view;
                assert(decreases_to!(*self => self.args));
                assert(decreases_to!(self.args => self.args@));
                assert(decreases_to!(self.args@ => self.args@[i as int]));
            }
            let v = match resolve_input(&self.args[i], attrs, funcs, call, propagation) {
                Ok(v) => v,
                Err(e) => {
                    proof {
                        let xs = self.args@;
                        assert(input_gives(*funcs, *call, t, propagation@, xs[i as int], Err(e@)));
                        assert(picked(vals_of(args@)) && picked(Err::<Val, Seq<char>>(e@)) && picked(e@));
                        assert(args_give(*funcs, *call, t, propagation@, xs, i + 1, Err(e@)));
                        lemma_args_err_stays(*funcs, *call, t, propagation@, xs, i + 1, xs.len() as int, e@);
                        assert(ctx_gives(*funcs, *call, t, propagation@, *self, Err(e@)));
                        if decided(t, ins) {
                            assert(ins.take(i + 1).drop_last() =~= ins.take(i as int));
                            assert(ins.take(i + 1).last() == ins[i as int]);
                            assert(input_res(t, ins[i as int]) is Some);
                            lemma_resolved_err_stays(t, ins, (i + 1) as int);
                        }
                    }
                    return Err(e);
                },
            };
            let ghost a0 = args@;
            args.push(v);
            proof {
                let xs = self.args@;
                assert(input_gives(*funcs, *call, t, propagation@, xs[i as int], Ok(v@)));
                assert(vals_of(args@) =~= vals_of(a0).push(v@));
                assert(picked(vals_of(a0)) && picked(Ok::<Val, Seq<char>>(v@)));
                assert(args_give(*funcs, *call, t, propagation@, xs, i + 1, Ok(vals_of(args@))));
                assert(vals_of(args@) =~= vals_of(a0).push(v@));
                assert(ins.take(i + 1).drop_last() =~= ins.take(i as int));
                assert(ins.take(i + 1).last() == ins[i as int]);
                assert forall|j: int| 0 <= j < i + 1 && (#[trigger] input_res(t, ins.take(i + 1)[j])) is Some implies input_res(t, ins.take(i + 1)[j]) == Some(
                    Ok::<Val, Seq<char>>(vals_of(args@)[j]),
                ) by {
                    if j < i {
                        assert(ins.take(i + 1)[j] == ins.take(i as int)[j]);
                    }
                }
            }
            i = i + 1;
        }
        assert(ins.take(i as int) =~= ins);
        let mut m = AttrMap::new();
        let ghost mut kv: Seq<Val> = Seq::empty();
        let mut k: usize = 0;
        assert(kw_pairs(kws.take(0), kv) =~= Seq::<(Seq<char>, Val)>::empty());
        assert(kin.take(0) =~= Seq::<InputV>::empty());
        while k < self.kwargs.len()
            invariant
                k <= self.kwargs.len(),
                t == attrs@,
                kws == kwargs_view(self.kwargs@),
                kin == kw_inputs(kws),
                kws.len() == self.kwargs.len(),
                forall|j: int| 0 <= j < self.kwargs.len() ==> #[trigger] kws[j] == (self.kwargs@[j].0@, input_view(self.kwargs@[j].1)),
                kv.len() == k,
                fits(t, kin.take(k as int), kv),
                decided(t, kin) ==> resolved(t, kin.take(k as int)) == Ok::<Seq<Val>, Seq<char>>(kv),
                m@ == upserted(Seq::empty(), kw_pairs(kws.take(k as int), kv)),
                ins == inputs_view(self.args@),
                fits(t, ins, vals_of(args@)),
                decided(t, ins) ==> resolved(t, ins) == Ok::<Seq<Val>, Seq<char>>(vals_of(args@)),
                forall|f: &E, c: &FunctionCtx| call.requires((f, c)),
                args_give(*funcs, *call, t, propagation@, self.args@, self.args@.len() as int, Ok(vals_of(args@))),
                kws_give(*funcs, *call, t, propagation@, self.kwargs@, k as int, Ok(kv)),
            decreases self.kwargs.len() - k,
        {
            proof {
                broadcast use vstd::std_specs::vec::axiom_vec_decreases_to_view;
                assert(decreases_to!(*self => self.kwargs));
                assert(decreases_to!(self.kwargs => self.kwargs@));
                assert(decreases_to!(self.kwargs@ => self.kwargs@[k as int]));
                assert(decreases_to!(self.kwargs@[k as int] => self.kwargs@[k as int].1));
                assert(kin[k as int] == kws[k as int].1);
            }
            let v = match resolve_input(&self.kwargs[k].1, attrs, funcs, call, propagation) {
                Ok(v) => v,
                Err(e) => {
                    proof {
                        let ks = self.kwargs@;
                        assert(input_gives(*funcs, *call, t, propagation@, ks[k as int].1, Err(e@)));
                        assert(picked(kv) && picked(Err::<Val, Seq<char>>(e@)) && picked(e@) && picked(vals_of(args@)));
                        assert(kws_give(*funcs, *call, t, propagation@, ks, k + 1, Err(e@)));
                        lemma_kws_err_stays(*funcs, *call, t, propagation@, ks, k + 1, ks.len() as int, e@);
                        assert(ctx_gives(*funcs, *call, t, propagation@, *self, Err(e@)));
                        if decided(t, kin) {
                            assert(kin.take(k + 1).drop_last() =~= kin.take(k as int));
                            assert(kin.take(k + 1).last() == kin[k as int]);
                            assert(input_res(t, kin[k as int]) is Some);
                            assert(kin[k as int] == self.kwargs@[k as int].1@);
                            lemma_resolved_err_stays(t, kin, (k + 1) as int);
                        }
                    }
                    return Err(e);
                },
            };
            let key = self.kwargs[k].0.clone();
            let ghost kv0 = kv;
            proof {
                let ks = self.kwargs@;
                assert(input_gives(*funcs, *call, t, propagation@, ks[k as int].1, Ok(v@)));
                assert(picked(kv) && picked(Ok::<Val, Seq<char>>(v@)));
                kv = kv.push(v@);
                assert(kws_give(*funcs, *call, t, propagation@, ks, k + 1, Ok(kv)));
                assert(kin.take(k + 1).drop_last() =~= kin.take(k as int));
                assert(kin.take(k + 1).last() == kin[k as int]);
                assert forall|j: int| 0 <= j < k + 1 && (#[trigger] input_res(t, kin.take(k + 1)[j])) is Some implies input_res(t, kin.take(k + 1)[j]) == Some(
                    Ok::<Val, Seq<char>>(kv[j]),
                ) by {
                    if j < k {
                        assert(kin.take(k + 1)[j] == kin.take(k as int)[j]);
                    }
                }
                assert(kw_pairs(kws.take(k + 1), kv).drop_last() =~= kw_pairs(kws.take(k as int), kv0));
                assert(kw_pairs(kws.take(k + 1), kv).last() == (key@, v@));
            }
            m.insert(key, v);
            k = k + 1;
        }
        proof {
            assert(kws.take(k as int) =~= kws);
            assert(kin.take(k as int) =~= kin);
        }
        let c = FunctionCtx { args, kwargs: m, propagation: clone_prop(propagation) };
        assert(picked(vals_of(c.args@)) && picked(kv));
        assert(ctx_gives(*funcs, *call, t, propagation@, *self, Ok((vals_of(c.args@), c.kwargs@))));
        Ok(c)
    }
}

proof fn lemma_args_err_stays<E, N, W, C: Fn(&E, &FunctionCtx) -> FunctionRet>(
    fs: NadiFunctions<E, N, W>, call: C, t: Seq<(Seq<char>, Val)>, p: PropV, xs: Seq<TaskInput>, n: int, m: int, e: Seq<char>,
)
    requires
        0 <= n <= m <= xs.len(),
        args_give(fs, call, t, p, xs, n, Err(e)),
    ensures
        args_give(fs, call, t, p, xs, m, Err(e)),
    decreases m - n,
{
    if m > n {
        lemma_args_err_stays(fs, call, t, p, xs, n, m - 1, e);
        assert(picked(e));
    }
}

proof fn lemma_kws_err_stays<E, N, W, C: Fn(&E, &FunctionCtx) -> FunctionRet>(
    fs: NadiFunctions<E, N, W>, call: C, t: Seq<(Seq<char>, Val)>, p: PropV, kws: Seq<(String, TaskInput)>, n: int, m: int, e: Seq<char>,
)
    requires
        0 <= n <= m <= kws.len(),
        kws_give(fs, call, t, p, kws, n, Err(e)),
    ensures
        kws_give(fs, call, t, p, kws, m, Err(e)),
    decreases m - n,
{
    if m > n {
        lemma_kws_err_stays(fs, call, t, p, kws, n, m - 1, e);
        assert(picked(e));
    }
}

/// Once the inputs before `n` give an error, all of them give that error.
proof fn lemma_resolved_err_stays(t: Seq<(Seq<char>, Val)>, xs: Seq<InputV>, n: int)
    requires
        0 <= n <= xs.len(),
        resolved(t, xs.take(n)) is Err,
    ensures
        resolved(t, xs) == resolved(t, xs.take(n)),
    decreases xs.len() - n,
{
    if n < xs.len() {
        assert(xs.take(n + 1).drop_last() =~= xs.take(n));
        lemma_resolved_err_stays(t, xs, n + 1);
    } else {
        assert(xs.take(n) =~= xs);
    }
}

} // verus!

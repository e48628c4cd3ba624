//! Recorded GPU commands and their semantics over the mask store.
//!
//! Lowering a selection expression produces a linear sequence of [`Command`]s:
//! whole-buffer copies and compute dispatches.  A dispatch runs one program
//! over a grid of `element_count` invocations; invocation `i` reads bit `i`
//! of the `source` and `dest` buffers and writes bit `i` of `dest`, so the
//! padding bits of the last word are never touched by a dispatch, only by a
//! copy.  [`run_command`] and [`run_commands`] define what executing the
//! sequence does to the per-buffer bit state; the host interpreter and the
//! device replay both implement this semantics.

use vstd::prelude::*;

verus! {

/// Operation code of the first custom operation; codes `0` to `4` are the
/// five primitive set operations.
pub const CUSTOM_OP_START: u32 = 5;

/// The per-element behaviour of one registered custom operation.
///
/// A registered program is opaque machine code on the device; what the
/// evaluator relies on is only its per-element result, so the registry keeps
/// that behaviour as a small tagged union which the host interpreter can run
/// and contracts can speak about.  `Fill` ignores its inputs, `Range` selects
/// the elements of a half-open index interval, and `CopySource` forwards the
/// source bit, which for a binary node is the lowered left operand.
#[derive(Clone, Copy, Debug, PartialEq, Eq, Structural)]
pub enum CustomProgram {
    /// Every element bit becomes the given constant.
    Fill(bool),
    /// Element `i` is selected exactly when `start <= i < end`.
    Range(u32, u32),
    /// Every element bit becomes the bit bound in the source slot.
    CopySource,
}

/// Per-element result of a custom program.
pub open spec fn custom_bit_spec(p: CustomProgram, src: bool, dst: bool, i: int) -> bool {
    match p {
        CustomProgram::Fill(b) => b,
        CustomProgram::Range(start, end) => start <= i < end,
        CustomProgram::CopySource => src,
    }
}

/// Per-element result of a custom program.
pub fn custom_bit(p: &CustomProgram, src: bool, dst: bool, i: u32) -> (b: bool)
    ensures
        b == custom_bit_spec(*p, src, dst, i as int),
{
    let _ = dst;
    match p {
        CustomProgram::Fill(v) => *v,
        CustomProgram::Range(start, end) => *start <= i && i < *end,
        CustomProgram::CopySource => src,
    }
}

/// Per-element result of the primitive program for op codes `0` to `4`:
/// union, intersection, difference, symmetric difference, complement.  The
/// source slot holds the left operand, the destination slot the right one.
pub open spec fn prim_bit_spec(op_code: u32, src: bool, dst: bool) -> bool {
    if op_code == 0 {
        src || dst
    } else if op_code == 1 {
        src && dst
    } else if op_code == 2 {
        src && !dst
    } else if op_code == 3 {
        src != dst
    } else {
        !dst
    }
}

/// Per-element result of the primitive program.
pub fn prim_bit(op_code: u32, src: bool, dst: bool) -> (b: bool)
    ensures
        b == prim_bit_spec(op_code, src, dst),
{
    if op_code == 0 {
        src || dst
    } else if op_code == 1 {
        src && dst
    } else if op_code == 2 {
        src && !dst
    } else if op_code == 3 {
        src != dst
    } else {
        !dst
    }
}

/// Per-element result of the program an op code selects: the fixed primitive
/// program below [`CUSTOM_OP_START`], the registered custom program above it.
pub open spec fn dispatch_bit_spec(
    progs: Seq<CustomProgram>,
    op_code: u32,
    src: bool,
    dst: bool,
    i: int,
) -> bool {
    if op_code < 5 {
        prim_bit_spec(op_code, src, dst)
    } else {
        custom_bit_spec(progs[op_code - 5], src, dst, i)
    }
}

/// Per-element result of the program an op code selects.
pub fn dispatch_bit(
    progs: &Vec<CustomProgram>,
    op_code: u32,
    src: bool,
    dst: bool,
    i: u32,
) -> (b: bool)
    requires
        op_code >= 5 ==> op_code - 5 < progs@.len(),
    ensures
        b == dispatch_bit_spec(progs@, op_code, src, dst, i as int),
{
    if op_code < 5 {
        prim_bit(op_code, src, dst)
    } else {
        custom_bit(&progs[(op_code - 5) as usize], src, dst, i)
    }
}

/// What one dispatch makes of the destination bits: element bits below `n`
/// are recomputed from the source and destination bits, everything above is
/// left as it was.
pub open spec fn apply_op(
    progs: Seq<CustomProgram>,
    op_code: u32,
    n: nat,
    src: Seq<bool>,
    dst: Seq<bool>,
) -> Seq<bool> {
    Seq::new(
        dst.len(),
        |i: int|
            if i < n {
                dispatch_bit_spec(progs, op_code, src[i], dst[i], i)
            } else {
                dst[i]
            },
    )
}

/// One recorded GPU command.
#[derive(Clone, Debug, PartialEq, Eq)]
pub enum Command {
    /// Copy the whole packed contents of `source` over `dest`.
    CopyBuffer { source: usize, dest: usize },
    /// Run the program selected by `op_code` over a grid of `element_count`
    /// invocations, reading the buffers in the `source` and `dest` slots and
    /// writing `dest` in place.  `bind_groups` names the caller-supplied
    /// extra resources a custom program is dispatched with.
    Dispatch {
        op_code: u32,
        source: usize,
        dest: usize,
        element_count: u32,
        bind_groups: Vec<u32>,
    },
}

/// The mathematical shape of one command, with the extra resources as a
/// sequence; contracts and the lowering function speak of commands through
/// this form.
#[verifier::ext_equal]
pub enum CommandModel {
    CopyBuffer { source: int, dest: int },
    Dispatch {
        op_code: u32,
        source: int,
        dest: int,
        element_count: u32,
        bind_groups: Seq<u32>,
    },
}

impl Command {
    /// The mathematical shape of this command.
    pub open spec fn model(self) -> CommandModel {
        match self {
            Command::CopyBuffer { source, dest } => CommandModel::CopyBuffer {
                source: source as int,
                dest: dest as int,
            },
            Command::Dispatch { op_code, source, dest, element_count, bind_groups } => {
                CommandModel::Dispatch {
                    op_code,
                    source: source as int,
                    dest: dest as int,
                    element_count,
                    bind_groups: bind_groups@,
                }
            },
        }
    }
}

/// The mathematical shape of a command sequence.
pub open spec fn models(cmds: Seq<Command>) -> Seq<CommandModel> {
    cmds.map_values(|c: Command| c.model())
}

/// Per-buffer bit lengths of a state.
pub open spec fn state_sizes(s: Seq<Seq<bool>>) -> Seq<nat> {
    Seq::new(s.len(), |i: int| s[i].len())
}

/// A command is valid for a registry size and per-buffer bit lengths: ids in
/// range, copies between buffers of equal size, the grid within both
/// buffers, and the op code either primitive or registered.
pub open spec fn command_ok(n_progs: nat, sizes: Seq<nat>, c: CommandModel) -> bool {
    match c {
        CommandModel::CopyBuffer { source, dest } => {
            &&& 0 <= source < sizes.len()
            &&& 0 <= dest < sizes.len()
            &&& sizes[source] == sizes[dest]
        },
        CommandModel::Dispatch { op_code, source, dest, element_count, .. } => {
            &&& 0 <= source < sizes.len()
            &&& 0 <= dest < sizes.len()
            &&& element_count <= sizes[source]
            &&& element_count <= sizes[dest]
            &&& (op_code < 5 || op_code - 5 < n_progs)
        },
    }
}

/// The bit state one command leaves behind.
pub open spec fn run_command(
    progs: Seq<CustomProgram>,
    c: CommandModel,
    s: Seq<Seq<bool>>,
) -> Seq<Seq<bool>> {
    match c {
        CommandModel::CopyBuffer { source, dest } => s.update(dest, s[source]),
        CommandModel::Dispatch { op_code, source, dest, element_count, .. } => s.update(
            dest,
            apply_op(progs, op_code, element_count as nat, s[source], s[dest]),
        ),
    }
}

/// The bit state a command sequence leaves behind, first command first.
pub open spec fn run_commands(
    progs: Seq<CustomProgram>,
    cmds: Seq<CommandModel>,
    s: Seq<Seq<bool>>,
) -> Seq<Seq<bool>>
    decreases cmds.len(),
{
    if cmds.len() == 0 {
        s
    } else {
        run_commands(progs, cmds.drop_first(), run_command(progs, cmds.first(), s))
    }
}

/// Running a concatenation runs the two halves in order.
pub proof fn lemma_run_commands_append(
    progs: Seq<CustomProgram>,
    a: Seq<CommandModel>,
    b: Seq<CommandModel>,
    s: Seq<Seq<bool>>,
)
    ensures
        run_commands(progs, a + b, s) == run_commands(progs, b, run_commands(progs, a, s)),
    decreases a.len(),
{
    if a.len() == 0 {
        assert(a + b =~= b);
    } else {
        assert((a + b).drop_first() =~= a.drop_first() + b);
        lemma_run_commands_append(progs, a.drop_first(), b, run_command(progs, a.first(), s));
    }
}

/// Running a single command is one step.
pub proof fn lemma_run_commands_one(
    progs: Seq<CustomProgram>,
    c: CommandModel,
    s: Seq<Seq<bool>>,
)
    ensures
        run_commands(progs, seq![c], s) == run_command(progs, c, s),
{
    let s1 = seq![c];
    assert(s1.first() == c);
    assert(s1.drop_first() =~= Seq::<CommandModel>::empty());
    assert(run_commands(progs, s1.drop_first(), run_command(progs, c, s)) == run_command(
        progs,
        c,
        s,
    ));
}

/// A command stays valid when the state grows by fresh buffers.
pub proof fn lemma_command_ok_extend(n_progs: nat, p: Seq<nat>, q: Seq<nat>, c: CommandModel)
    requires
        command_ok(n_progs, p, c),
        p.len() <= q.len(),
        forall|i: int| 0 <= i < p.len() ==> q[i] == p[i],
    ensures
        command_ok(n_progs, q, c),
{
}

/// Running one more command is one more step.
pub proof fn lemma_run_commands_snoc(
    progs: Seq<CustomProgram>,
    p: Seq<CommandModel>,
    c: CommandModel,
    s: Seq<Seq<bool>>,
)
    ensures
        run_commands(progs, p.push(c), s) == run_command(progs, c, run_commands(progs, p, s)),
{
    assert(p.push(c) =~= p + seq![c]);
    lemma_run_commands_append(progs, p, seq![c], s);
    lemma_run_commands_one(progs, c, run_commands(progs, p, s));
}

/// The linear command sequence one evaluation records, replayed against the
/// device by the surrounding GPU layer and run against the host store by
/// [`crate::selection::SelectionBundle::submit`].
#[derive(Debug)]
pub struct CommandEncoder {
    commands: Vec<Command>,
}

impl View for CommandEncoder {
    type V = Seq<Command>;

    closed spec fn view(&self) -> Seq<Command> {
        self.commands@
    }
}

impl CommandEncoder {
    /// An encoder with no commands recorded.
    pub fn new() -> (r: Self)
        ensures
            r@ =~= Seq::<Command>::empty(),
    {
        CommandEncoder { commands: Vec::new() }
    }

    /// How many commands are recorded.
    pub fn len(&self) -> (n: usize)
        ensures
            n == self@.len(),
    {
        self.commands.len()
    }

    /// Record one command after the ones already recorded.
    pub fn push(&mut self, c: Command)
        ensures
            final(self)@ == old(self)@.push(c),
    {
        self.commands.push(c);
    }

    /// The recorded commands, in recording order.
    pub fn commands(&self) -> (r: &Vec<Command>)
        ensures
            r@ == self@,
    {
        &self.commands
    }
}

} // verus!

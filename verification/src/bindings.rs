//! Bindings: a definition, the command it runs, and the mode
//! instructions it carries. The assembler zips compiled definitions
//! with enumerated commands, enforces the parity rule, and strips the
//! omission sentinel from every finished binding.

use vstd::prelude::*;

use crate::definition::Definition;
use crate::definition::def_eq;
use crate::errors::GrammarError;
use crate::errors::LineColLocation;
use crate::errors::ParseError;
use crate::product::copy_mods;
use crate::text::decimal_string;
use crate::token::Modifier;

verus! {

/// A step a binding takes through the mode stack when it fires:
/// enter the named mode, or escape the current one.
#[derive(Debug, PartialEq, Eq)]
pub enum ModeInstruction {
    Enter(String),
    Escape,
}

impl Clone for ModeInstruction {
    fn clone(&self) -> (r: Self)
        ensures
            r == *self,
    {
        match self {
            ModeInstruction::Enter(name) => ModeInstruction::Enter(name.clone()),
            ModeInstruction::Escape => ModeInstruction::Escape,
        }
    }
}

/// A copy of a mode-instruction list.
pub fn copy_instructions(v: &Vec<ModeInstruction>) -> (r: Vec<ModeInstruction>)
    ensures
        r@ == v@,
{
    let mut r: Vec<ModeInstruction> = Vec::new();
    let mut i: usize = 0;
    while i < v.len()
        invariant
            i <= v@.len(),
            r@ == v@.take(i as int),
        decreases v@.len() - i,
    {
        r.push(v[i].clone());
        proof {
            assert(r@ =~= v@.take(i + 1));
        }
        i = i + 1;
    }
    proof {
        assert(r@ =~= v@);
    }
    r
}

/// A rule binding a definition to a command, with the mode
/// instructions that firing it performs.
#[derive(Debug, PartialEq, Eq)]
pub struct Binding {
    pub definition: Definition,
    pub command: String,
    pub mode_instructions: Vec<ModeInstruction>,
}

impl Clone for Binding {
    fn clone(&self) -> (r: Self)
        ensures
            def_eq(&r.definition, &self.definition),
            r.command@ == self.command@,
            r.mode_instructions@ == self.mode_instructions@,
    {
        Binding {
            definition: self.definition.clone(),
            command: self.command.clone(),
            mode_instructions: copy_instructions(&self.mode_instructions),
        }
    }
}

impl Binding {
    /// Start building a binding that runs this command.
    pub fn running(command: &str) -> (b: BindingBuilder)
        ensures
            b.command@ == command@,
    {
        BindingBuilder { command: String::from_str(command) }
    }
}

/// A binding under construction: the command is set, the definition
/// comes next.
#[derive(Debug)]
pub struct BindingBuilder {
    pub command: String,
}

impl BindingBuilder {
    /// Finish the binding on this definition, with no mode
    /// instructions.
    pub fn on(self, definition: Definition) -> (b: Binding)
        ensures
            b.definition == definition,
            b.command@ == self.command@,
            b.mode_instructions@ == Seq::<ModeInstruction>::empty(),
    {
        Binding { definition, command: self.command, mode_instructions: Vec::new() }
    }
}

/// Ghost view of a mode instruction.
pub enum InstructionView {
    Enter(Seq<char>),
    Escape,
}

/// The view of one mode instruction.
pub open spec fn instruction_view(i: ModeInstruction) -> InstructionView {
    match i {
        ModeInstruction::Enter(name) => InstructionView::Enter(name@),
        ModeInstruction::Escape => InstructionView::Escape,
    }
}

/// The views of a list of mode instructions.
pub open spec fn instructions_view(v: Seq<ModeInstruction>) -> Seq<InstructionView> {
    v.map_values(|i: ModeInstruction| instruction_view(i))
}

/// Ghost view of a binding: its modifier list, key, command text and
/// mode instructions.
pub struct BindingView {
    pub modifiers: Seq<Modifier>,
    pub key: crate::token::Key,
    pub command: Seq<char>,
    pub instructions: Seq<InstructionView>,
}

impl BindingView {
    /// The definition part of this view.
    pub open spec fn defv(self) -> crate::definition::DefView {
        crate::definition::DefView { modifiers: self.modifiers, key: self.key }
    }
}

/// The view of one binding.
pub open spec fn binding_view(b: Binding) -> BindingView {
    BindingView {
        modifiers: b.definition.modifiers@,
        key: b.definition.key,
        command: b.command@,
        instructions: instructions_view(b.mode_instructions@),
    }
}

/// The views of a list of bindings.
pub open spec fn bindings_view(v: Seq<Binding>) -> Seq<BindingView> {
    v.map_values(|b: Binding| binding_view(b))
}

/// The modifier list with every `Omission` removed, order kept.
pub open spec fn without_omission(s: Seq<Modifier>) -> Seq<Modifier>
    decreases s.len(),
{
    if s.len() == 0 {
        Seq::empty()
    } else if s.last() == Modifier::Omission {
        without_omission(s.drop_last())
    } else {
        without_omission(s.drop_last()).push(s.last())
    }
}

/// Stripping leaves no omission behind.
pub proof fn lemma_without_omission_free(s: Seq<Modifier>)
    ensures
        forall|i: int|
            0 <= i < without_omission(s).len() ==> #[trigger] without_omission(s)[i]
                != Modifier::Omission,
    decreases s.len(),
{
    if s.len() > 0 {
        lemma_without_omission_free(s.drop_last());
    }
}

/// The modifiers of `v` with every `Omission` removed.
pub fn strip_omission(v: &Vec<Modifier>) -> (r: Vec<Modifier>)
    ensures
        r@ == without_omission(v@),
{
    let mut r: Vec<Modifier> = Vec::new();
    let mut i: usize = 0;
    while i < v.len()
        invariant
            i <= v@.len(),
            r@ == without_omission(v@.take(i as int)),
        decreases v@.len() - i,
    {
        proof {
            assert(v@.take(i + 1).drop_last() =~= v@.take(i as int));
            assert(v@.take(i + 1).last() == v@[i as int]);
        }
        if v[i] != Modifier::Omission {
            r.push(v[i]);
        }
        i = i + 1;
    }
    proof {
        assert(v@.take(v@.len() as int) =~= v@);
    }
    r
}

/// Zip the compiled definitions with the enumerated commands: one
/// binding per pair, each carrying the declaration's mode
/// instructions, each with `Omission` stripped from its modifier set.
/// The two counts must agree — the parity rule — or the result is the
/// grammar error spanning the whole declaration.
#[verifier::loop_isolation(false)]
pub fn assemble_bindings(
    defs: Vec<Definition>,
    commands: Vec<String>,
    instructions: Vec<ModeInstruction>,
    span_start: (usize, usize),
    span_end: (usize, usize),
) -> (r: Result<Vec<Binding>, ParseError>)
    ensures
        r is Err <==> defs@.len() != commands@.len(),
        r matches Err(e) ==> e matches ParseError::Grammar(g) && g.line_col
            == LineColLocation::Span(span_start, span_end) && g.message@
            == "the number of possible binding variants "@ + crate::text::spec_decimal(
            defs@.len() as int,
        ) + " does not equal the number of possible command variants "@ + crate::text::spec_decimal(
            commands@.len() as int,
        ) + "."@,
        r matches Ok(v) ==> v@.len() == defs@.len() && forall|i: int|
            0 <= i < v@.len() ==> (#[trigger] v@[i]).definition.modifiers@ == without_omission(
                defs@[i].modifiers@,
            ) && v@[i].definition.key == defs@[i].key && v@[i].command@ == commands@[i]@
                && v@[i].mode_instructions@ == instructions@,
{
    if defs.len() != commands.len() {
        let mut m = String::from_str("the number of possible binding variants ");
        m.append(decimal_string(defs.len() as u64).as_str());
        m.append(" does not equal the number of possible command variants ");
        m.append(decimal_string(commands.len() as u64).as_str());
        m.append(".");
        return Err(
            ParseError::Grammar(
                GrammarError {
                    line_col: LineColLocation::Span(span_start, span_end),
                    message: m,
                    path: String::new(),
                },
            ),
        );
    }
    let mut defs = defs;
    let mut commands = commands;
    let ghost defs0 = defs@;
    let ghost commands0 = commands@;
    let mut out: Vec<Binding> = Vec::new();
    let mut i: usize = 0;
    while i < defs.len()
        invariant
            defs@ == defs0,
            commands@ == commands0,
            i <= defs0.len(),
            out@.len() == i,
            forall|j: int|
                0 <= j < i ==> (#[trigger] out@[j]).definition.modifiers@ == without_omission(
                    defs0[j].modifiers@,
                ) && out@[j].definition.key == defs0[j].key && out@[j].command@ == commands0[j]@
                    && out@[j].mode_instructions@ == instructions@,
        decreases defs0.len() - i,
    {
        let stripped = strip_omission(&defs[i].modifiers);
        out.push(
            Binding {
                definition: Definition { modifiers: stripped, key: defs[i].key },
                command: commands[i].clone(),
                mode_instructions: copy_instructions(&instructions),
            },
        );
        i = i + 1;
    }
    Ok(out)
}

} // verus!

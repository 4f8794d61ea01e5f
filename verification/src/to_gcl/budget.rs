//! Whether the graph has room for a program.

use vstd::prelude::*;

use crate::count::{
    actions_count, block_count, count, declaration_count, declarations_count, element_count,
    elements_count, expr_count, flush_count, if_count, join_count, lemma_has_control_step,
    program_count, statement_count, var_decl_count, BlockCount, Count,
};
use crate::graph::Room;
use crate::growth::lemma_local_elements_prefix;
use crate::ir::{
    IrBlockStatement, IrControlDecl, IrControlLocalDecl, IrDeclaration, IrExpr, IrExprData,
    IrIfStatement, IrProgram, IrStatement, IrStatementOrDecl, IrVariableDecl,
};
use crate::translation::{control_elements, has_control, local_elements};

verus! {

/// What `room` is room for.
pub open spec fn room_count(room: Room) -> Count {
    count(room.nodes as nat, room.edges as nat, room.names as nat)
}

/// Whether `left` is what is left of `room` when `added` has been added; nothing, where the room
/// is too small.
pub open spec fn is_left(left: Option<Room>, room: Room, added: Count) -> bool {
    match left {
        Some(rest) => room_count(room) == room_count(rest).plus(added),
        None => !added.is_within(room_count(room)),
    }
}

/// Takes nodes, edges and names from the room.
fn take(room: Room, nodes: u64, edges: u64, names: u64) -> (left: Option<Room>)
    ensures
        is_left(left, room, count(nodes as nat, edges as nat, names as nat)),
{
    if nodes <= room.nodes && edges <= room.edges && names <= room.names {
        Some(
            Room {
                nodes: room.nodes - nodes,
                edges: room.edges - edges,
                names: room.names - names,
            },
        )
    } else {
        None
    }
}

/// Takes what an expression adds from the room.
fn take_expr(expr: &IrExpr, room: Room) -> (left: Option<Room>)
    ensures
        is_left(left, room, expr_count(*expr)),
    decreases expr,
{
    match &expr.data {
        IrExprData::Bool(_) => take(room, 1, 0, 1),
        IrExprData::Var(_) => take(room, 3, 2, 3),
        IrExprData::And(left, right) | IrExprData::Or(left, right) => {
            match take_expr(left, room) {
                Some(rest) => match take_expr(right, rest) {
                    Some(rest) => take(rest, 3, 6, 4),
                    None => None,
                },
                None => None,
            }
        },
        IrExprData::Negation(inner) => match take_expr(inner, room) {
            Some(rest) => take(rest, 1, 1, 1),
            None => None,
        },
        IrExprData::FunctionCall(_) => take(room, 3, 3, 4),
    }
}

/// Takes what a declaration adds from the room.
fn take_var_decl(decl: &IrVariableDecl, room: Room) -> (left: Option<Room>)
    ensures
        is_left(left, room, var_decl_count(*decl)),
{
    match &decl.value {
        Some(value) => match take_expr(value, room) {
            Some(rest) => take(rest, 1, 1, 1),
            None => None,
        },
        None => take(room, 1, 0, 1),
    }
}

/// Takes what a conditional adds from the room.
fn take_if(statement: &IrIfStatement, room: Room) -> (left: Option<Room>)
    ensures
        is_left(left, room, if_count(*statement)),
    decreases statement,
{
    match take_expr(&statement.condition, room) {
        Some(rest) => match take_statement(&statement.then_case, rest) {
            Some(rest) => match &statement.else_case {
                Some(else_case) => match take_statement(else_case, rest) {
                    Some(rest) => take(rest, 1, 4, 1),
                    None => None,
                },
                None => take(rest, 1, 3, 1),
            },
            None => None,
        },
        None => None,
    }
}

/// Takes what a statement adds from the room.
fn take_statement(statement: &IrStatement, room: Room) -> (left: Option<Room>)
    ensures
        is_left(left, room, statement_count(*statement)),
    decreases statement,
{
    match statement {
        IrStatement::Block(block) => take_block(block, room),
        IrStatement::If(if_statement) => take_if(if_statement, room),
        IrStatement::Assignment(assignment) => match take_expr(&assignment.value, room) {
            Some(rest) => take(rest, 3, 3, 3),
            None => None,
        },
        IrStatement::FunctionCall(_) => take(room, 2, 2, 2),
    }
}

/// The room while a block is looked at.
#[derive(Clone, Copy)]
struct BlockRoom {
    rest: Room,
    has_pending: bool,
    has_nodes: bool,
}

/// Whether `state` is what is left of `room` after some elements of a block.
spec fn is_left_by(state: BlockRoom, room: Room, counted: BlockCount) -> bool {
    &&& is_left(Some(state.rest), room, counted.added)
    &&& state.has_pending == counted.has_pending
    &&& state.has_nodes == counted.has_nodes
}

/// Takes what a block adds for a node that holds pending commands from the room.
fn take_flush(room: Room, has_nodes: bool) -> (left: Option<Room>)
    ensures
        is_left(left, room, flush_count(has_nodes)),
{
    take(
        room,
        1,
        if has_nodes {
            1
        } else {
            0
        },
        1,
    )
}

/// Takes what a block adds to join an element from the room, when the element itself has been
/// taken from it.
fn take_join(state: BlockRoom) -> (left: Option<BlockRoom>)
    ensures
        ({
            let added = join_count(state.has_pending, state.has_nodes);
            match left {
                Some(next) => {
                    &&& is_left(Some(next.rest), state.rest, added)
                    &&& !next.has_pending
                    &&& next.has_nodes
                },
                None => is_left(None, state.rest, added),
            }
        }),
{
    let joined = if state.has_pending {
        match take_flush(state.rest, state.has_nodes) {
            Some(rest) => take(rest, 0, 1, 0),
            None => None,
        }
    } else if state.has_nodes {
        take(state.rest, 0, 1, 0)
    } else {
        Some(state.rest)
    };
    match joined {
        Some(rest) => Some(BlockRoom { rest, has_pending: false, has_nodes: true }),
        None => None,
    }
}

/// Takes what an element adds to a block from the room.
fn take_element(element: &IrStatementOrDecl, state: BlockRoom) -> (left: Option<BlockRoom>)
    ensures
        forall|room: Room, counted: BlockCount| #[trigger]
            is_left_by(state, room, counted) ==> {
                let after = counted.absorb(*element, element_count(*element));
                match left {
                    Some(next) => is_left_by(next, room, after),
                    None => !after.added.is_within(room_count(room)),
                }
            },
    decreases element,
{
    let taken = match element {
        IrStatementOrDecl::Statement(statement) => take_statement(statement, state.rest),
        IrStatementOrDecl::VariableDecl(decl) => take_var_decl(decl, state.rest),
        IrStatementOrDecl::Instantiation(_) => {
            return Some(BlockRoom { has_pending: true, ..state });
        },
    };
    match taken {
        Some(rest) => take_join(BlockRoom { rest, ..state }),
        None => None,
    }
}

/// Takes what a block adds at its end from the room.
fn take_end(state: BlockRoom) -> (left: Option<Room>)
    ensures
        forall|room: Room, counted: BlockCount| #[trigger]
            is_left_by(state, room, counted) ==> is_left(left, room, counted.finish()),
{
    if !state.has_pending && state.has_nodes {
        Some(state.rest)
    } else {
        take_flush(state.rest, state.has_nodes)
    }
}

/// More elements do not add less.
proof fn lemma_elements_count_grows(elements: Seq<IrStatementOrDecl>, k: nat)
    requires
        k <= elements.len(),
    ensures
        elements_count(elements, k).added.is_within(block_count(elements)),
    decreases elements.len() - k,
{
    if k < elements.len() {
        lemma_elements_count_grows(elements, k + 1);
        assert(elements_count(elements, k + 1) == elements_count(elements, k).absorb(
            elements[k as int],
            element_count(elements[k as int]),
        ));
    }
}

/// Takes what a block adds from the room.
fn take_block(block: &IrBlockStatement, room: Room) -> (left: Option<Room>)
    ensures
        is_left(left, room, block_count(block.0@)),
    decreases block,
{
    let ghost elements = block.0@;
    let mut state = BlockRoom { rest: room, has_pending: false, has_nodes: false };
    let mut i: usize = 0;
    while i < block.0.len()
        invariant
            elements == block.0@,
            i <= elements.len(),
            is_left_by(state, room, elements_count(elements, i as nat)),
        decreases elements.len() - i,
    {
        proof {
            lemma_elements_count_grows(elements, (i + 1) as nat);
            assert(elements_count(elements, (i + 1) as nat) == elements_count(
                elements,
                i as nat,
            ).absorb(elements[i as int], element_count(elements[i as int])));
        }
        match take_element(&block.0[i], state) {
            Some(next) => {
                state = next;
            },
            None => {
                return None;
            },
        }
        i = i + 1;
    }
    take_end(state)
}

/// More actions do not add less.
proof fn lemma_actions_count_grows(decls: Seq<IrControlLocalDecl>, k: nat)
    requires
        k <= decls.len(),
    ensures
        actions_count(decls, k).is_within(actions_count(decls, decls.len())),
    decreases decls.len() - k,
{
    if k < decls.len() {
        lemma_actions_count_grows(decls, k + 1);
    }
}

/// Takes what the actions of a control block add from the room.
fn take_actions(control: &IrControlDecl, room: Room) -> (left: Option<Room>)
    ensures
        is_left(left, room, actions_count(control.local_decls@, control.local_decls@.len())),
{
    let ghost decls = control.local_decls@;
    let mut rest = room;
    let mut i: usize = 0;
    while i < control.local_decls.len()
        invariant
            decls == control.local_decls@,
            i <= decls.len(),
            is_left(Some(rest), room, actions_count(decls, i as nat)),
        decreases decls.len() - i,
    {
        if let IrControlLocalDecl::Action(action) = &control.local_decls[i] {
            proof {
                lemma_actions_count_grows(decls, (i + 1) as nat);
            }
            let taken = match take_block(&action.body, rest) {
                Some(left) => take(left, 1, 1, 0),
                None => None,
            };
            match taken {
                Some(left) => {
                    rest = left;
                },
                None => {
                    return None;
                },
            }
        }
        i = i + 1;
    }
    Some(rest)
}

/// Takes what a local declaration adds to the block of a control block from the room.
fn take_local(decl: &IrControlLocalDecl, state: BlockRoom) -> (left: Option<BlockRoom>)
    ensures
        forall|room: Room, counted: BlockCount| #[trigger]
            is_left_by(state, room, counted) ==> {
                let after = match *decl {
                    IrControlLocalDecl::Variable(variable) => counted.absorb(
                        IrStatementOrDecl::VariableDecl(variable),
                        var_decl_count(variable),
                    ),
                    IrControlLocalDecl::Instantiation(instantiation) => counted.absorb(
                        IrStatementOrDecl::Instantiation(instantiation),
                        count(0, 0, 0),
                    ),
                    _ => counted,
                };
                match left {
                    Some(next) => is_left_by(next, room, after),
                    None => !after.added.is_within(room_count(room)),
                }
            },
{
    match decl {
        IrControlLocalDecl::Variable(variable) => match take_var_decl(variable, state.rest) {
            Some(rest) => take_join(BlockRoom { rest, ..state }),
            None => None,
        },
        IrControlLocalDecl::Instantiation(_) => Some(BlockRoom { has_pending: true, ..state }),
        _ => Some(state),
    }
}

/// Takes what the block of a control block adds from the room.
fn take_control_block(control: &IrControlDecl, room: Room) -> (left: Option<Room>)
    ensures
        is_left(left, room, block_count(control_elements(*control))),
{
    let ghost decls = control.local_decls@;
    let ghost elements = control_elements(*control);
    let mut state = BlockRoom { rest: room, has_pending: false, has_nodes: false };
    let mut i: usize = 0;
    while i < control.local_decls.len()
        invariant
            decls == control.local_decls@,
            elements == control_elements(*control),
            i <= decls.len(),
            is_left_by(
                state,
                room,
                elements_count(elements, local_elements(decls, i as nat).len()),
            ),
        decreases decls.len() - i,
    {
        let ghost k = local_elements(decls, i as nat).len();
        proof {
            lemma_local_elements_prefix(decls, (i + 1) as nat);
            let next = local_elements(decls, (i + 1) as nat);
            lemma_elements_count_grows(elements, next.len());
            if next.len() > k {
                assert(next[k as int] == elements[k as int]);
                assert(elements_count(elements, k + 1) == elements_count(elements, k).absorb(
                    elements[k as int],
                    element_count(elements[k as int]),
                ));
            }
        }
        match take_local(&control.local_decls[i], state) {
            Some(next) => {
                state = next;
            },
            None => {
                return None;
            },
        }
        i = i + 1;
    }
    let ghost locals = local_elements(decls, decls.len());
    let body = &control.apply_body.0;
    let mut j: usize = 0;
    while j < body.len()
        invariant
            elements == locals + body@,
            elements == control_elements(*control),
            j <= body@.len(),
            is_left_by(state, room, elements_count(elements, locals.len() + j as nat)),
        decreases body@.len() - j,
    {
        let ghost k = locals.len() + j as nat;
        proof {
            lemma_elements_count_grows(elements, k + 1);
            assert(elements[k as int] == body@[j as int]);
            assert(elements_count(elements, k + 1) == elements_count(elements, k).absorb(
                elements[k as int],
                element_count(elements[k as int]),
            ));
        }
        match take_element(&body[j], state) {
            Some(next) => {
                state = next;
            },
            None => {
                return None;
            },
        }
        j = j + 1;
    }
    take_end(state)
}

/// Takes what a declaration of a program adds from the room.
fn take_declaration(decl: &IrDeclaration, room: Room) -> (left: Option<Room>)
    ensures
        is_left(left, room, declaration_count(*decl)),
{
    match decl {
        IrDeclaration::Constant(constant) => match take_var_decl(constant, room) {
            Some(rest) => take(rest, 0, 1, 0),
            None => None,
        },
        IrDeclaration::Control(control) => match take_actions(control, room) {
            Some(rest) => take_control_block(control, rest),
            None => None,
        },
        IrDeclaration::Instantiation(_) => Some(room),
    }
}

/// More declarations do not add less.
proof fn lemma_declarations_count_grows(decls: Seq<IrDeclaration>, k: nat)
    requires
        k <= decls.len(),
    ensures
        declarations_count(decls, k).is_within(declarations_count(decls, decls.len())),
    decreases decls.len() - k,
{
    if k < decls.len() {
        lemma_declarations_count_grows(decls, k + 1);
    }
}

/// Whether the room is enough for a program.
pub(crate) fn is_affordable(program: &IrProgram, room: Room) -> (result: bool)
    ensures
        result == program_count(*program).is_within(room_count(room)),
{
    let ghost decls = program.declarations@;
    let mut rest = room;
    let mut has_control_block: bool = false;
    let mut i: usize = 0;
    while i < program.declarations.len()
        invariant
            decls == program.declarations@,
            i <= decls.len(),
            is_left(Some(rest), room, declarations_count(decls, i as nat)),
            has_control_block == has_control(decls, i as nat),
        decreases decls.len() - i,
    {
        proof {
            lemma_declarations_count_grows(decls, (i + 1) as nat);
            lemma_has_control_step(decls, i as nat);
        }
        match take_declaration(&program.declarations[i], rest) {
            Some(left) => {
                rest = left;
            },
            None => {
                return false;
            },
        }
        if let IrDeclaration::Control(_) = &program.declarations[i] {
            has_control_block = true;
        }
        i = i + 1;
    }
    take(
        rest,
        1,
        if has_control_block {
            1
        } else {
            0
        },
        0,
    ).is_some()
}

} // verus!

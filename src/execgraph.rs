//! The execution graph: a linear pipeline of typed operations and a resume key.
use vstd::prelude::*;
use vstd::std_specs::slice::into_iter_elts;
use crate::dataframe::table::FilterOpcodes;

verus! {

/// The kind of an operation.
#[derive(Clone, Copy, Debug, PartialEq, Eq, Structural)]
pub enum OperationType {
    /// Load a file (argument: its name).
    Read,
    /// Mark fields for output (arguments: their names).
    Select,
    /// Filter rows (arguments: field, operator, operand).
    Where,
    /// Sum a field into the result (argument: the field).
    Sum,
    /// Count the rows into the result.
    Count,
    /// Reserved; always refused.
    Fetch,
    /// Does nothing.
    Empty,
}

/// The name of an operation kind.
pub open spec fn op_name(t: OperationType) -> Seq<char> {
    match t {
        OperationType::Read => seq!['R', 'e', 'a', 'd'],
        OperationType::Select => seq!['S', 'e', 'l', 'e', 'c', 't'],
        OperationType::Where => seq!['W', 'h', 'e', 'r', 'e'],
        OperationType::Sum => seq!['S', 'u', 'm'],
        OperationType::Count => seq!['C', 'o', 'u', 'n', 't'],
        OperationType::Fetch => seq!['F', 'e', 't', 'c', 'h'],
        OperationType::Empty => seq!['E', 'm', 'p', 't', 'y'],
    }
}

/// The comparison that an operator token names: `==`, `>`, `>=`, `<` or `<=`.
pub open spec fn operator_of(s: Seq<char>) -> Option<FilterOpcodes> {
    if s == seq!['=', '='] {
        Some(FilterOpcodes::Equal)
    } else if s == seq!['>'] {
        Some(FilterOpcodes::Greater)
    } else if s == seq!['>', '='] {
        Some(FilterOpcodes::GreaterEqual)
    } else if s == seq!['<'] {
        Some(FilterOpcodes::Less)
    } else if s == seq!['<', '='] {
        Some(FilterOpcodes::LessEqual)
    } else {
        None
    }
}

impl OperationType {
    /// The name of the operation kind.
    pub fn name(&self) -> (r: String)
        ensures
            r@ == op_name(*self),
    {
        let s = match self {
            OperationType::Read => "Read",
            OperationType::Select => "Select",
            OperationType::Where => "Where",
            OperationType::Sum => "Sum",
            OperationType::Count => "Count",
            OperationType::Fetch => "Fetch",
            OperationType::Empty => "Empty",
        };
        proof {
            reveal_strlit("Read");
            reveal_strlit("Select");
            reveal_strlit("Where");
            reveal_strlit("Sum");
            reveal_strlit("Count");
            reveal_strlit("Fetch");
            reveal_strlit("Empty");
        }
        let r = String::from_str(s);
        assert(r@ =~= op_name(*self));
        r
    }
}

/// The abstract content of an operation.
pub struct OpModel {
    pub id: nat,
    pub optype: OperationType,
    pub args: Seq<Seq<char>>,
}

/// One operation of a graph: its identifier, its kind and its arguments.
pub struct OpNode {
    id: usize,
    function_name: OperationType,
    args: Vec<String>,
}

impl View for OpNode {
    type V = OpModel;

    closed spec fn view(&self) -> OpModel {
        OpModel { id: self.id as nat, optype: self.function_name, args: self.args.deep_view() }
    }
}

impl OpNode {
    /// An operation with the given identifier, kind and arguments.
    pub fn new(id: usize, function_name: OperationType, args: Vec<String>) -> (r: OpNode)
        ensures
            r@ == (OpModel { id: id as nat, optype: function_name, args: args.deep_view() }),
    {
        OpNode { id, function_name, args }
    }

    /// The kind of the operation.
    pub fn optype(&self) -> (r: &OperationType)
        ensures
            *r == self@.optype,
    {
        &self.function_name
    }

    /// The file that a read loads: the first argument.
    pub fn get_read_op_filename(&self) -> (r: &String)
        requires
            self@.args.len() > 0,
        ensures
            r@ == self@.args[0],
    {
        &self.args[0]
    }

    /// The field that a filter tests: the first argument.
    pub fn get_binary_operation_left(&self) -> (r: &String)
        requires
            self@.args.len() > 0,
        ensures
            r@ == self@.args[0],
    {
        &self.args[0]
    }

    /// The comparison that a filter applies, read from the second argument;
    /// `None` where that is not an operator token.
    pub fn get_binary_operation_operator(&self) -> (r: Option<FilterOpcodes>)
        requires
            self@.args.len() > 1,
        ensures
            r == operator_of(self@.args[1]),
    {
        let s = self.args[1].as_str();
        let n = s.unicode_len();
        if n == 1 {
            let c = s.get_char(0);
            if c == '>' {
                assert(s@ =~= seq!['>']);
                Some(FilterOpcodes::Greater)
            } else if c == '<' {
                assert(s@ =~= seq!['<']);
                Some(FilterOpcodes::Less)
            } else {
                None
            }
        } else if n == 2 && s.get_char(1) == '=' {
            let c = s.get_char(0);
            if c == '=' {
                assert(s@ =~= seq!['=', '=']);
                Some(FilterOpcodes::Equal)
            } else if c == '>' {
                assert(s@ =~= seq!['>', '=']);
                Some(FilterOpcodes::GreaterEqual)
            } else if c == '<' {
                assert(s@ =~= seq!['<', '=']);
                Some(FilterOpcodes::LessEqual)
            } else {
                None
            }
        } else {
            None
        }
    }

    /// The operand that a filter compares with: the third argument.
    pub fn get_binary_operation_right(&self) -> (r: &String)
        requires
            self@.args.len() > 2,
        ensures
            r@ == self@.args[2],
    {
        &self.args[2]
    }

    /// The fields that a projection marks: all the arguments.
    pub fn get_projection_fields(&self) -> (r: &Vec<String>)
        ensures
            r.deep_view() == self@.args,
    {
        &self.args
    }

    /// The identifier of the operation.
    pub fn get_operation_id(&self) -> (r: usize)
        ensures
            r == self@.id,
    {
        self.id
    }
}

/// The file names that the `Read` operations among `ops` carry, in order.
pub open spec fn read_names(ops: Seq<OpModel>) -> Seq<Seq<char>>
    decreases ops.len(),
{
    if ops.len() == 0 {
        Seq::empty()
    } else if ops.last().optype == OperationType::Read && ops.last().args.len() > 0 {
        read_names(ops.drop_last()).push(ops.last().args[0])
    } else {
        read_names(ops.drop_last())
    }
}

/// The abstract content of a graph.
pub struct GraphModel {
    pub operations: Seq<OpModel>,
    pub checkpoint: nat,
}

/// A linear pipeline of operations and the checkpoint to resume from (0: start fresh).
pub struct ExecGraph {
    operations: Vec<OpNode>,
    checkpoint: usize,
}

impl View for ExecGraph {
    type V = GraphModel;

    closed spec fn view(&self) -> GraphModel {
        GraphModel {
            operations: self.operations@.map_values(|o: OpNode| o@),
            checkpoint: self.checkpoint as nat,
        }
    }
}

impl ExecGraph {
    /// A graph of the given operations, in order, resuming from `checkpoint`.
    pub fn new(operations: Vec<OpNode>, checkpoint: usize) -> (g: ExecGraph)
        ensures
            g@.operations == operations@.map_values(|o: OpNode| o@),
            g@.checkpoint == checkpoint,
    {
        ExecGraph { operations, checkpoint }
    }

    /// The checkpoint to resume from; 0 means start fresh.
    pub fn get_checkpoint(&self) -> (r: &usize)
        ensures
            *r == self@.checkpoint,
    {
        &self.checkpoint
    }

    /// The operations, in submission order.
    pub fn operations(&self) -> (r: &Vec<OpNode>)
        ensures
            r@.map_values(|o: OpNode| o@) == self@.operations,
    {
        &self.operations
    }

    /// The key under which the state after this graph is saved: the
    /// identifier of its last operation; `None` for a graph without operations.
    pub fn checkpoint_key(&self) -> (r: Option<usize>)
        ensures
            match r {
                Some(id) => self@.operations.len() > 0 && id == self@.operations.last().id,
                None => self@.operations.len() == 0,
            },
    {
        let n = self.operations.len();
        if n == 0 {
            None
        } else {
            Some(self.operations[n - 1].get_operation_id())
        }
    }

    /// The files that the graph's `Read` operations name, in order.
    pub fn read_files(&self) -> (r: Vec<String>)
        ensures
            r.deep_view() == read_names(self@.operations),
    {
        let mut out: Vec<String> = Vec::new();
        let n = self.operations.len();
        for k in 0..n
            invariant
                n == self@.operations.len(),
                out.deep_view() == read_names(self@.operations.take(k as int)),
        {
            let op = &self.operations[k];
            let ghost t = self@.operations.take(k as int + 1);
            assert(t.drop_last() =~= self@.operations.take(k as int));
            assert(t.last() == op@);
            if matches!(op.optype(), OperationType::Read) && op.get_projection_fields().len() > 0 {
                let ghost before = out.deep_view();
                out.push(op.get_read_op_filename().clone());
                assert(out.deep_view() =~= before.push(op@.args[0]));
            }
        }
        assert(self@.operations.take(n as int) =~= self@.operations);
        out
    }

    /// An iterator over the operations, in submission order; the graph is not changed.
    pub fn iter(&self) -> (r: std::slice::Iter<'_, OpNode>)
        ensures
            into_iter_elts(r).map_values(|o: OpNode| o@) == self@.operations,
    {
        self.operations.iter()
    }
}

} // verus!

//! Command-line arguments of the benchmark.

use crate::index_header::{law_degree_fills_the_node, ParsedHeader};
use crate::numa::{
    ascending, listed_nodes, parse_node_spec, same_nodes, NodeSpecError,
};
use crate::text::{chars_of, number_of, parse_number, same_text, split_on, Stretch};
use vstd::prelude::*;
use vstd::string::*;

verus! {

/// What the benchmark is asked to do.
pub struct BenchArgs {
    pub mode: String,
    pub device: String,
    pub index_path: String,
    pub queries_path: String,
    pub pq_codes_path: String,
    pub gt_path: String,
    pub output_path: String,
    pub dim: usize,
    pub max_degree: usize,
    pub block_size: usize,
    pub data_start: usize,
    pub num_points: usize,
    pub reps: usize,
    pub skip_copy: bool,
    pub local_node: u32,
    pub cxl_nodes: Vec<u32>,
}

/// What arguments say.
pub struct ArgsModel {
    pub mode: Seq<char>,
    pub device: Seq<char>,
    pub index_path: Seq<char>,
    pub queries_path: Seq<char>,
    pub pq_codes_path: Seq<char>,
    pub gt_path: Seq<char>,
    pub output_path: Seq<char>,
    pub dim: usize,
    pub max_degree: usize,
    pub block_size: usize,
    pub data_start: usize,
    pub num_points: usize,
    pub reps: usize,
    pub skip_copy: bool,
    pub local_node: u32,
    /// The CXL nodes as they are listed.
    pub cxl_listed: Seq<u32>,
}

impl ArgsModel {
    /// What holds where nothing is said.
    pub open spec fn standard() -> ArgsModel {
        ArgsModel {
            mode: "disk"@,
            device: Seq::empty(),
            index_path: Seq::empty(),
            queries_path: Seq::empty(),
            pq_codes_path: Seq::empty(),
            gt_path: Seq::empty(),
            output_path: Seq::empty(),
            dim: 0,
            max_degree: 0,
            block_size: 0,
            data_start: 0,
            num_points: 0,
            reps: 3,
            skip_copy: false,
            local_node: 0,
            cxl_listed: seq![2u32],
        }
    }

    /// Takes a text, where the flag is one that has a text.
    pub open spec fn with_text(self, flag: Seq<char>, value: Seq<char>) -> Option<ArgsModel> {
        if flag == "--mode"@ {
            Some(ArgsModel { mode: value, ..self })
        } else if flag == "--device"@ {
            Some(ArgsModel { device: value, ..self })
        } else if flag == "--index"@ {
            Some(ArgsModel { index_path: value, ..self })
        } else if flag == "--queries"@ {
            Some(ArgsModel { queries_path: value, ..self })
        } else if flag == "--pq-codes"@ {
            Some(ArgsModel { pq_codes_path: value, ..self })
        } else if flag == "--groundtruth"@ {
            Some(ArgsModel { gt_path: value, ..self })
        } else if flag == "--output"@ {
            Some(ArgsModel { output_path: value, ..self })
        } else {
            None
        }
    }

    /// Takes a number, where the flag is one that has a number.
    pub open spec fn with_number(self, flag: Seq<char>, value: usize) -> Option<ArgsModel> {
        if flag == "--dim"@ {
            Some(ArgsModel { dim: value, ..self })
        } else if flag == "--max-degree"@ {
            Some(ArgsModel { max_degree: value, ..self })
        } else if flag == "--block-size"@ {
            Some(ArgsModel { block_size: value, ..self })
        } else if flag == "--data-start"@ {
            Some(ArgsModel { data_start: value, ..self })
        } else if flag == "--num-points"@ {
            Some(ArgsModel { num_points: value, ..self })
        } else if flag == "--reps"@ {
            Some(ArgsModel { reps: value, ..self })
        } else {
            None
        }
    }
}

/// Whether a flag takes a text.
pub open spec fn is_text_flag(flag: Seq<char>) -> bool {
    ||| flag == "--mode"@
    ||| flag == "--device"@
    ||| flag == "--index"@
    ||| flag == "--queries"@
    ||| flag == "--pq-codes"@
    ||| flag == "--groundtruth"@
    ||| flag == "--output"@
}

/// Whether a flag takes a number.
pub open spec fn is_number_flag(flag: Seq<char>) -> bool {
    ||| flag == "--dim"@
    ||| flag == "--max-degree"@
    ||| flag == "--block-size"@
    ||| flag == "--data-start"@
    ||| flag == "--num-points"@
    ||| flag == "--reps"@
}

/// What comes of arguments.
pub enum ArgsModelOutcome {
    Run(ArgsModel),
    Help,
    Unknown(Seq<char>),
    MissingValue(Seq<char>),
    BadNumber(Seq<char>),
    BadNodes(NodeSpecError),
    IndexRequired,
}

/// What comes of the arguments from the `i`-th on, after those in front of it gave `model`.
pub open spec fn outcome_from(
    args: Seq<Seq<char>>,
    i: int,
    model: ArgsModel,
) -> ArgsModelOutcome
    decreases args.len() - i,
{
    if i >= args.len() {
        if model.index_path.len() == 0 {
            ArgsModelOutcome::IndexRequired
        } else {
            ArgsModelOutcome::Run(model)
        }
    } else {
        let flag = args[i];
        if flag == "--skip-copy"@ {
            outcome_from(args, i + 1, ArgsModel { skip_copy: true, ..model })
        } else if flag == "--help"@ || flag == "-h"@ {
            ArgsModelOutcome::Help
        } else if is_text_flag(flag) {
            if i + 1 >= args.len() {
                ArgsModelOutcome::MissingValue(flag)
            } else {
                outcome_from(args, i + 2, model.with_text(flag, args[i + 1]).unwrap())
            }
        } else if is_number_flag(flag) {
            if i + 1 >= args.len() {
                ArgsModelOutcome::MissingValue(flag)
            } else {
                match number_of(args[i + 1], usize::MAX as int) {
                    None => ArgsModelOutcome::BadNumber(flag),
                    Some(n) => outcome_from(
                        args,
                        i + 2,
                        model.with_number(flag, n as usize).unwrap(),
                    ),
                }
            }
        } else if flag == "--local-node"@ {
            if i + 1 >= args.len() {
                ArgsModelOutcome::MissingValue(flag)
            } else {
                match number_of(args[i + 1], u32::MAX as int) {
                    None => ArgsModelOutcome::BadNumber(flag),
                    Some(n) => outcome_from(
                        args,
                        i + 2,
                        ArgsModel { local_node: n as u32, ..model },
                    ),
                }
            }
        } else if flag == "--cxl-nodes"@ {
            if i + 1 >= args.len() {
                ArgsModelOutcome::MissingValue(flag)
            } else {
                match listed_nodes(split_on(args[i + 1], ',')) {
                    Err(e) => ArgsModelOutcome::BadNodes(e),
                    Ok(listed) => if listed.len() == 0 {
                        ArgsModelOutcome::BadNodes(NodeSpecError::Empty)
                    } else {
                        outcome_from(args, i + 2, ArgsModel { cxl_listed: listed, ..model })
                    },
                }
            }
        } else {
            ArgsModelOutcome::Unknown(flag)
        }
    }
}

/// The texts of arguments.
pub open spec fn texts_of(args: Seq<String>) -> Seq<Seq<char>> {
    Seq::new(args.len(), |i: int| args[i]@)
}

/// What comes of arguments.
pub enum ArgsOutcome {
    /// All is said.
    Run(BenchArgs),
    /// Help is asked for.
    Help,
    /// An argument is not known.
    Unknown(String),
    /// The last flag lacks its value.
    MissingValue(String),
    /// The value of a flag is no number.
    BadNumber(String),
    /// The node list is not readable.
    BadNodes(NodeSpecError),
    /// No index is named.
    IndexRequired,
}

impl ArgsOutcome {
    /// Whether the outcome is what a model says.
    pub open spec fn agrees(self, model: ArgsModelOutcome) -> bool {
        match (self, model) {
            (ArgsOutcome::Run(args), ArgsModelOutcome::Run(m)) => args.agrees(m),
            (ArgsOutcome::Help, ArgsModelOutcome::Help) => true,
            (ArgsOutcome::Unknown(a), ArgsModelOutcome::Unknown(b)) => a@ == b,
            (ArgsOutcome::MissingValue(a), ArgsModelOutcome::MissingValue(b)) => a@ == b,
            (ArgsOutcome::BadNumber(a), ArgsModelOutcome::BadNumber(b)) => a@ == b,
            (ArgsOutcome::BadNodes(a), ArgsModelOutcome::BadNodes(b)) => a == b,
            (ArgsOutcome::IndexRequired, ArgsModelOutcome::IndexRequired) => true,
            _ => false,
        }
    }
}

/// Reads a number that a whole text denotes.
fn whole_number(text: &str, max: u64) -> (number: Option<u64>)
    ensures
        match number {
            Some(n) => number_of(text@, max as int) == Some(n as int),
            None => number_of(text@, max as int) is None,
        },
{
    let chars = chars_of(text);
    let whole = Stretch { from: 0, to: chars.len() };
    assert(whole.of(chars@) =~= text@);
    parse_number(chars.as_slice(), whole, max)
}

impl BenchArgs {
    /// Whether the arguments are what a model says. The nodes stand in ascending order, each
    /// once.
    pub open spec fn agrees(self, m: ArgsModel) -> bool {
        &&& self.mode@ == m.mode
        &&& self.device@ == m.device
        &&& self.index_path@ == m.index_path
        &&& self.queries_path@ == m.queries_path
        &&& self.pq_codes_path@ == m.pq_codes_path
        &&& self.gt_path@ == m.gt_path
        &&& self.output_path@ == m.output_path
        &&& self.dim == m.dim
        &&& self.max_degree == m.max_degree
        &&& self.block_size == m.block_size
        &&& self.data_start == m.data_start
        &&& self.num_points == m.num_points
        &&& self.reps == m.reps
        &&& self.skip_copy == m.skip_copy
        &&& self.local_node == m.local_node
        &&& ascending(self.cxl_nodes@)
        &&& same_nodes(self.cxl_nodes@, m.cxl_listed)
    }

    /// What holds where nothing is said.
    pub fn standard() -> (args: Self)
        ensures
            args.agrees(ArgsModel::standard()),
    {
        let args = BenchArgs {
            mode: String::from_str("disk"),
            device: String::new(),
            index_path: String::new(),
            queries_path: String::new(),
            pq_codes_path: String::new(),
            gt_path: String::new(),
            output_path: String::new(),
            dim: 0,
            max_degree: 0,
            block_size: 0,
            data_start: 0,
            num_points: 0,
            reps: 3,
            skip_copy: false,
            local_node: 0,
            cxl_nodes: vec![2u32],
        };
        assert(args.cxl_nodes@ =~= seq![2u32]);
        args
    }

    /// Takes a text, where the flag is one that has a text.
    fn set_text(&mut self, flag: &str, value: &String)
        requires
            is_text_flag(flag@),
        ensures
            forall|m: ArgsModel| #[trigger]
                old(self).agrees(m) ==> final(self).agrees(m.with_text(flag@, value@).unwrap()),
    {
        let text = value.clone();
        if same_text(flag, "--mode") {
            self.mode = text;
        } else if same_text(flag, "--device") {
            self.device = text;
        } else if same_text(flag, "--index") {
            self.index_path = text;
        } else if same_text(flag, "--queries") {
            self.queries_path = text;
        } else if same_text(flag, "--pq-codes") {
            self.pq_codes_path = text;
        } else if same_text(flag, "--groundtruth") {
            self.gt_path = text;
        } else {
            self.output_path = text;
        }
    }

    /// Takes a number, where the flag is one that has a number.
    fn set_number(&mut self, flag: &str, value: usize)
        requires
            is_number_flag(flag@),
        ensures
            forall|m: ArgsModel| #[trigger]
                old(self).agrees(m) ==> final(self).agrees(m.with_number(flag@, value).unwrap()),
    {
        if same_text(flag, "--dim") {
            self.dim = value;
        } else if same_text(flag, "--max-degree") {
            self.max_degree = value;
        } else if same_text(flag, "--block-size") {
            self.block_size = value;
        } else if same_text(flag, "--data-start") {
            self.data_start = value;
        } else if same_text(flag, "--num-points") {
            self.num_points = value;
        } else {
            self.reps = value;
        }
    }

    /// Reads the arguments of a program, of which the first is its name.
    pub fn from_args(args: &Vec<String>) -> (outcome: ArgsOutcome)
        ensures
            outcome.agrees(outcome_from(texts_of(args@), 1, ArgsModel::standard())),
    {
        let ghost texts = texts_of(args@);
        let ghost expected = outcome_from(texts, 1, ArgsModel::standard());
        let ghost mut m = ArgsModel::standard();
        let mut r = BenchArgs::standard();
        let total: usize = args.len();
        let mut i: usize = 1;
        while i < total
            invariant
                1 <= i,
                total == args@.len(),
                texts == texts_of(args@),
                expected == outcome_from(texts, 1, ArgsModel::standard()),
                r.agrees(m),
                expected == outcome_from(texts, i as int, m),
            decreases total - i,
        {
            let flag = args[i].as_str();
            let ghost f = texts[i as int];
            assert(flag@ == f);
            if same_text(flag, "--skip-copy") {
                r.skip_copy = true;
                proof {
                    m = ArgsModel { skip_copy: true, ..m };
                }
                i += 1;
                continue;
            }
            if same_text(flag, "--help") || same_text(flag, "-h") {
                return ArgsOutcome::Help;
            }
            let text_flag: bool = takes_text(flag);
            let number_flag: bool = takes_number(flag);
            let local_flag: bool = same_text(flag, "--local-node");
            let nodes_flag: bool = same_text(flag, "--cxl-nodes");
            if !(text_flag || number_flag || local_flag || nodes_flag) {
                return ArgsOutcome::Unknown(args[i].clone());
            }
            if total - i < 2 {
                return ArgsOutcome::MissingValue(args[i].clone());
            }
            let value = &args[i + 1];
            assert(value@ == texts[i + 1]);
            if text_flag {
                r.set_text(flag, value);
                proof {
                    m = m.with_text(f, value@).unwrap();
                }
            } else if number_flag {
                let n: usize = match whole_number(value.as_str(), usize::MAX as u64) {
                    Some(n) => n as usize,
                    None => return ArgsOutcome::BadNumber(args[i].clone()),
                };
                r.set_number(flag, n);
                proof {
                    m = m.with_number(f, n).unwrap();
                }
            } else if local_flag {
                let n: u32 = match whole_number(value.as_str(), u32::MAX as u64) {
                    Some(n) => n as u32,
                    None => return ArgsOutcome::BadNumber(args[i].clone()),
                };
                r.local_node = n;
                proof {
                    m = ArgsModel { local_node: n, ..m };
                }
            } else {
                match parse_node_spec(value.as_str()) {
                    Ok(nodes) => {
                        r.cxl_nodes = nodes;
                        proof {
                            m = ArgsModel {
                                cxl_listed: listed_nodes(split_on(value@, ',')).unwrap(),
                                ..m
                            };
                        }
                    },
                    Err(e) => return ArgsOutcome::BadNodes(e),
                }
            }
            i += 2;
        }
        if r.index_path.as_str().is_empty() {
            return ArgsOutcome::IndexRequired;
        }
        ArgsOutcome::Run(r)
    }
}

/// Whether a flag takes a text.
fn takes_text(flag: &str) -> (takes: bool)
    ensures
        takes == is_text_flag(flag@),
{
    same_text(flag, "--mode") || same_text(flag, "--device") || same_text(flag, "--index")
        || same_text(flag, "--queries") || same_text(flag, "--pq-codes") || same_text(
        flag,
        "--groundtruth",
    ) || same_text(flag, "--output")
}

/// Whether a flag takes a number.
fn takes_number(flag: &str) -> (takes: bool)
    ensures
        takes == is_number_flag(flag@),
{
    same_text(flag, "--dim") || same_text(flag, "--max-degree") || same_text(flag, "--block-size")
        || same_text(flag, "--data-start") || same_text(flag, "--num-points") || same_text(
        flag,
        "--reps",
    )
}

/// A run never starts without an index.
pub proof fn law_runs_have_an_index(args: Seq<Seq<char>>, i: int, model: ArgsModel)
    ensures
        outcome_from(args, i, model) matches ArgsModelOutcome::Run(m) ==> m.index_path.len() > 0,
    decreases args.len() - i,
{
    if i < args.len() {
        let flag = args[i];
        if flag == "--skip-copy"@ {
            law_runs_have_an_index(args, i + 1, ArgsModel { skip_copy: true, ..model });
        } else if is_text_flag(flag) && i + 1 < args.len() {
            law_runs_have_an_index(args, i + 2, model.with_text(flag, args[i + 1]).unwrap());
        } else if is_number_flag(flag) && i + 1 < args.len() {
            if let Some(n) = number_of(args[i + 1], usize::MAX as int) {
                law_runs_have_an_index(
                    args,
                    i + 2,
                    model.with_number(flag, n as usize).unwrap(),
                );
            }
        } else if flag == "--local-node"@ && i + 1 < args.len() {
            if let Some(n) = number_of(args[i + 1], u32::MAX as int) {
                law_runs_have_an_index(
                    args,
                    i + 2,
                    ArgsModel { local_node: n as u32, ..model },
                );
            }
        } else if flag == "--cxl-nodes"@ && i + 1 < args.len() {
            if let Ok(listed) = listed_nodes(split_on(args[i + 1], ',')) {
                law_runs_have_an_index(args, i + 2, ArgsModel { cxl_listed: listed, ..model });
            }
        }
    }
}

/// What is run.
#[derive(Debug, Clone, Copy, PartialEq, Eq, Structural)]
pub enum BenchMode {
    /// The index is read from mapped files or devices.
    Disk,
    /// The index is split between DRAM and CXL memory.
    Numa,
}

/// The shape of the index that a run goes over.
#[derive(Debug, Clone, Copy, PartialEq, Eq, Structural)]
pub struct RunShape {
    pub num_points: usize,
    pub dims: usize,
    pub elem_size: usize,
    pub max_degree: usize,
}

/// A number that is given, or else the one that is found.
pub open spec fn given_or(given: usize, found: int) -> int {
    if given > 0 {
        given as int
    } else {
        found
    }
}

impl RunShape {
    /// The shape that arguments and header give: arguments go first.
    pub open spec fn of(args: BenchArgs, header: ParsedHeader) -> RunShape {
        RunShape {
            num_points: given_or(args.num_points, header.num_pts as int) as usize,
            dims: given_or(args.dim, header.dims as int) as usize,
            elem_size: header.elem_size(),
            max_degree: given_or(
                args.max_degree,
                header.degree(header.elem_size() as int),
            ) as usize,
        }
    }
}

impl BenchArgs {
    /// The mode that is asked for, where there is such a mode.
    pub fn bench_mode(&self) -> (mode: Option<BenchMode>)
        ensures
            mode == if self.mode@ == "disk"@ {
                Some(BenchMode::Disk)
            } else if self.mode@ == "numa"@ {
                Some(BenchMode::Numa)
            } else {
                None
            },
    {
        if same_text(self.mode.as_str(), "disk") {
            Some(BenchMode::Disk)
        } else if same_text(self.mode.as_str(), "numa") {
            Some(BenchMode::Numa)
        } else {
            None
        }
    }

    /// The shape of the index to run over.
    pub fn run_shape(&self, header: &ParsedHeader) -> (shape: RunShape)
        requires
            header.node_len <= usize::MAX,
            header.num_pts <= usize::MAX,
            header.dims <= usize::MAX,
        ensures
            shape == RunShape::of(*self, *header),
    {
        let elem_size: usize = header.detect_elem_size();
        let num_points: usize = if self.num_points > 0 {
            self.num_points
        } else {
            header.num_pts as usize
        };
        let dims: usize = if self.dim > 0 {
            self.dim
        } else {
            header.dims as usize
        };
        let max_degree: usize = if self.max_degree > 0 {
            self.max_degree
        } else {
            header.max_degree(elem_size)
        };
        RunShape { num_points, dims, elem_size, max_degree }
    }
}

/// No two flags are the same.
proof fn lemma_flags_differ()
    ensures
        "--skip-copy"@.len() == 11,
        "--help"@.len() == 6,
        "-h"@.len() == 2,
        "--mode"@.len() == 6,
        "--device"@.len() == 8,
        "--index"@.len() == 7,
        "--queries"@.len() == 9,
        "--pq-codes"@.len() == 10,
        "--groundtruth"@.len() == 13,
        "--output"@.len() == 8,
        "--dim"@.len() == 5,
        "--max-degree"@.len() == 12,
        "--block-size"@.len() == 12,
        "--data-start"@.len() == 12,
        "--num-points"@.len() == 12,
        "--reps"@.len() == 6,
        "--local-node"@.len() == 12,
        "--cxl-nodes"@.len() == 11,
        "--skip-copy"@[2] == 's',
        "--help"@[2] == 'h',
        "--mode"@[2] == 'm',
        "--device"@[2] == 'd',
        "--index"@[2] == 'i',
        "--queries"@[2] == 'q',
        "--pq-codes"@[2] == 'p',
        "--groundtruth"@[2] == 'g',
        "--output"@[2] == 'o',
        "--dim"@[2] == 'd',
        "--max-degree"@[2] == 'm',
        "--block-size"@[2] == 'b',
        "--data-start"@[2] == 'd',
        "--num-points"@[2] == 'n',
        "--reps"@[2] == 'r',
        "--local-node"@[2] == 'l',
        "--cxl-nodes"@[2] == 'c',
{
    reveal_strlit("--skip-copy");
    reveal_strlit("--help");
    reveal_strlit("-h");
    reveal_strlit("--mode");
    reveal_strlit("--device");
    reveal_strlit("--index");
    reveal_strlit("--queries");
    reveal_strlit("--pq-codes");
    reveal_strlit("--groundtruth");
    reveal_strlit("--output");
    reveal_strlit("--dim");
    reveal_strlit("--max-degree");
    reveal_strlit("--block-size");
    reveal_strlit("--data-start");
    reveal_strlit("--num-points");
    reveal_strlit("--reps");
    reveal_strlit("--local-node");
    reveal_strlit("--cxl-nodes");
}

/// Each flag with a text sets its own field to what follows it, and nothing else; the rest of the
/// arguments is read on from there.
pub proof fn law_text_flags_set_their_field(args: Seq<Seq<char>>, i: int, model: ArgsModel)
    requires
        0 <= i,
        i + 1 < args.len(),
    ensures
        ({
            let flag = args[i];
            let value = args[i + 1];
            &&& flag == "--mode"@ ==> outcome_from(args, i, model) == outcome_from(
                args,
                i + 2,
                ArgsModel { mode: value, ..model },
            )
            &&& flag == "--device"@ ==> outcome_from(args, i, model) == outcome_from(
                args,
                i + 2,
                ArgsModel { device: value, ..model },
            )
            &&& flag == "--index"@ ==> outcome_from(args, i, model) == outcome_from(
                args,
                i + 2,
                ArgsModel { index_path: value, ..model },
            )
            &&& flag == "--queries"@ ==> outcome_from(args, i, model) == outcome_from(
                args,
                i + 2,
                ArgsModel { queries_path: value, ..model },
            )
            &&& flag == "--pq-codes"@ ==> outcome_from(args, i, model) == outcome_from(
                args,
                i + 2,
                ArgsModel { pq_codes_path: value, ..model },
            )
            &&& flag == "--groundtruth"@ ==> outcome_from(args, i, model) == outcome_from(
                args,
                i + 2,
                ArgsModel { gt_path: value, ..model },
            )
            &&& flag == "--output"@ ==> outcome_from(args, i, model) == outcome_from(
                args,
                i + 2,
                ArgsModel { output_path: value, ..model },
            )
        }),
{
    lemma_flags_differ();
}

/// Each flag with a number sets its own field to the number that follows it, and nothing else;
/// where no number follows, that is told with the flag.
pub proof fn law_number_flags_set_their_field(
    args: Seq<Seq<char>>,
    i: int,
    model: ArgsModel,
    n: int,
)
    requires
        0 <= i,
        i + 1 < args.len(),
    ensures
        number_of(args[i + 1], usize::MAX as int) == Some(n) ==> {
            let flag = args[i];
            &&& flag == "--dim"@ ==> outcome_from(args, i, model) == outcome_from(
                args,
                i + 2,
                ArgsModel { dim: n as usize, ..model },
            )
            &&& flag == "--max-degree"@ ==> outcome_from(args, i, model) == outcome_from(
                args,
                i + 2,
                ArgsModel { max_degree: n as usize, ..model },
            )
            &&& flag == "--block-size"@ ==> outcome_from(args, i, model) == outcome_from(
                args,
                i + 2,
                ArgsModel { block_size: n as usize, ..model },
            )
            &&& flag == "--data-start"@ ==> outcome_from(args, i, model) == outcome_from(
                args,
                i + 2,
                ArgsModel { data_start: n as usize, ..model },
            )
            &&& flag == "--num-points"@ ==> outcome_from(args, i, model) == outcome_from(
                args,
                i + 2,
                ArgsModel { num_points: n as usize, ..model },
            )
            &&& flag == "--reps"@ ==> outcome_from(args, i, model) == outcome_from(
                args,
                i + 2,
                ArgsModel { reps: n as usize, ..model },
            )
        },
        number_of(args[i + 1], usize::MAX as int) is None ==> {
            let flag = args[i];
            flag == "--dim"@ || flag == "--max-degree"@ || flag == "--block-size"@ || flag == "--data-start"@ || flag == "--num-points"@ || flag == "--reps"@ ==> outcome_from(args, i, model) == ArgsModelOutcome::BadNumber(flag)
        },
        args[i] == "--local-node"@ ==> {
            &&& number_of(args[i + 1], u32::MAX as int) == Some(n) ==> outcome_from(args, i, model)
                == outcome_from(args, i + 2, ArgsModel { local_node: n as u32, ..model })
            &&& number_of(args[i + 1], u32::MAX as int) is None ==> outcome_from(args, i, model)
                == ArgsModelOutcome::BadNumber(args[i])
        },
{
    lemma_flags_differ();
}

/// The other arguments: copying is skipped where that is asked for, help ends the reading, a node
/// list is read as such, an argument that is no flag is told, and so is a last flag that lacks its
/// value. Where all is read, an index must have been named.
pub proof fn law_other_arguments(args: Seq<Seq<char>>, i: int, model: ArgsModel)
    requires
        0 <= i,
    ensures
        i >= args.len() && model.index_path.len() == 0 ==> outcome_from(args, i, model)
            == ArgsModelOutcome::IndexRequired,
        i >= args.len() && model.index_path.len() > 0 ==> outcome_from(args, i, model)
            == ArgsModelOutcome::Run(model),
        i < args.len() ==> {
            let flag = args[i];
            &&& flag == "--skip-copy"@ ==> outcome_from(args, i, model) == outcome_from(
                args,
                i + 1,
                ArgsModel { skip_copy: true, ..model },
            )
            &&& flag == "--help"@ || flag == "-h"@ ==> outcome_from(args, i, model)
                == ArgsModelOutcome::Help
            &&& flag != "--skip-copy"@ && flag != "--help"@ && flag != "-h"@ && flag != "--mode"@ && flag != "--device"@ && flag != "--index"@ && flag != "--queries"@ && flag != "--pq-codes"@ && flag != "--groundtruth"@ && flag != "--output"@ && flag != "--dim"@ && flag != "--max-degree"@ && flag != "--block-size"@ && flag != "--data-start"@ && flag != "--num-points"@ && flag != "--reps"@ && flag != "--local-node"@ && flag != "--cxl-nodes"@ ==> outcome_from(args, i, model) == ArgsModelOutcome::Unknown(flag)
            &&& i + 1 == args.len() && (flag == "--mode"@ || flag == "--device"@ || flag == "--index"@ || flag == "--queries"@ || flag == "--pq-codes"@ || flag == "--groundtruth"@ || flag == "--output"@ || flag == "--dim"@ || flag == "--max-degree"@ || flag == "--block-size"@ || flag == "--data-start"@ || flag == "--num-points"@ || flag == "--reps"@ || flag == "--local-node"@ || flag == "--cxl-nodes"@) ==> outcome_from(args, i, model)
                == ArgsModelOutcome::MissingValue(flag)
            &&& i + 1 < args.len() && flag == "--cxl-nodes"@ ==> match listed_nodes(
                split_on(args[i + 1], ','),
            ) {
                Err(e) => outcome_from(args, i, model) == ArgsModelOutcome::BadNodes(e),
                Ok(listed) => {
                    &&& listed.len() == 0 ==> outcome_from(args, i, model)
                        == ArgsModelOutcome::BadNodes(NodeSpecError::Empty)
                    &&& listed.len() > 0 ==> outcome_from(args, i, model) == outcome_from(
                        args,
                        i + 2,
                        ArgsModel { cxl_listed: listed, ..model },
                    )
                },
            }
        },
{
    lemma_flags_differ();
}

/// What holds where nothing is said: disk mode, three repetitions, CXL node 2, local node 0, and
/// nothing else.
pub proof fn law_standard_arguments()
    ensures
        ({
            let m = ArgsModel::standard();
            &&& m.mode == "disk"@
            &&& m.device.len() == 0 && m.index_path.len() == 0 && m.queries_path.len() == 0
            &&& m.pq_codes_path.len() == 0 && m.gt_path.len() == 0 && m.output_path.len() == 0
            &&& m.dim == 0 && m.max_degree == 0 && m.block_size == 0 && m.data_start == 0
            &&& m.num_points == 0
            &&& m.reps == 3
            &&& !m.skip_copy
            &&& m.local_node == 0
            &&& m.cxl_listed == seq![2u32]
        }),
{
}

/// Arguments carry over what was said, field by field. The nodes that were listed stand in
/// ascending order, each once.
pub proof fn law_arguments_carry_what_was_said(args: BenchArgs, m: ArgsModel)
    ensures
        args.agrees(m) <==> {
            &&& args.mode@ == m.mode && args.device@ == m.device && args.index_path@ == m.index_path
            &&& args.queries_path@ == m.queries_path && args.pq_codes_path@ == m.pq_codes_path
            &&& args.gt_path@ == m.gt_path && args.output_path@ == m.output_path
            &&& args.dim == m.dim && args.max_degree == m.max_degree
            &&& args.block_size == m.block_size && args.data_start == m.data_start
            &&& args.num_points == m.num_points && args.reps == m.reps
            &&& args.skip_copy == m.skip_copy && args.local_node == m.local_node
            &&& forall|i: int, j: int|
                0 <= i < j < args.cxl_nodes@.len() ==> #[trigger] args.cxl_nodes@[i]
                    < #[trigger] args.cxl_nodes@[j]
            &&& forall|n: u32| #[trigger] args.cxl_nodes@.contains(n) <==> m.cxl_listed.contains(n)
        },
{
}

/// An outcome is of the kind that the arguments lead to, with the same text or fault.
pub proof fn law_outcomes_are_of_their_kind(outcome: ArgsOutcome, model: ArgsModelOutcome)
    requires
        outcome.agrees(model),
    ensures
        outcome is Run <==> model is Run,
        outcome is Help <==> model is Help,
        outcome is IndexRequired <==> model is IndexRequired,
        outcome matches ArgsOutcome::Run(a) ==> model matches ArgsModelOutcome::Run(m)
            && a.agrees(m),
        outcome matches ArgsOutcome::Unknown(a) ==> model == ArgsModelOutcome::Unknown(a@),
        outcome matches ArgsOutcome::MissingValue(a) ==> model == ArgsModelOutcome::MissingValue(
            a@,
        ),
        outcome matches ArgsOutcome::BadNumber(a) ==> model == ArgsModelOutcome::BadNumber(a@),
        outcome matches ArgsOutcome::BadNodes(e) ==> model == ArgsModelOutcome::BadNodes(e),
{
}

/// The shape of a run: each number that is given in the arguments is taken from there, each other
/// one from the header; the element size always comes from the header.
pub proof fn law_given_numbers_go_first(args: BenchArgs, header: ParsedHeader)
    requires
        header.num_pts <= usize::MAX,
        header.dims <= usize::MAX,
        header.node_len <= usize::MAX,
    ensures
        ({
            let shape = RunShape::of(args, header);
            &&& args.num_points > 0 ==> shape.num_points == args.num_points
            &&& args.num_points == 0 ==> shape.num_points == header.num_pts
            &&& args.dim > 0 ==> shape.dims == args.dim
            &&& args.dim == 0 ==> shape.dims == header.dims
            &&& args.max_degree > 0 ==> shape.max_degree == args.max_degree
            &&& args.max_degree == 0 ==> shape.max_degree == header.degree(
                shape.elem_size as int,
            )
            &&& shape.elem_size == header.elem_size()
        }),
{
    law_degree_fills_the_node(header, header.elem_size() as int);
    assert(header.dims * header.elem_size() >= 0) by (nonlinear_arith);
}

/// What is given goes before what is found.
pub proof fn law_given_goes_before_found(given: usize, found: int)
    ensures
        given > 0 ==> given_or(given, found) == given,
        given == 0 ==> given_or(given, found) == found,
{
}

/// Arguments stand for their texts, one by one.
pub proof fn law_arguments_stand_for_their_texts(args: Seq<String>, i: int)
    requires
        0 <= i < args.len(),
    ensures
        texts_of(args).len() == args.len(),
        texts_of(args)[i] == args[i]@,
{
}

} // verus!

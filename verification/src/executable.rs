//! Compiled programs: their signatures, and the checks around an execution.
use crate::dtype::DType;
use crate::error::Error;
use crate::graph::{TensorType, TypeModel};
use crate::image::same_text;
use crate::interface::types_view;
use crate::listing::{listed, listing};
use crate::plan::InputSpec;
use crate::session::{buffers_view, outcome_view, Buffer, BufferModel};
use crate::shape::same_dims;
use vstd::prelude::*;

verus! {

/// A compiled program: its handle, its client and devices, and its signature.
pub struct Executable {
    handle: u64,
    client: u64,
    devices: usize,
    inputs: Vec<TensorType>,
    output_count: usize,
}

/// Why the inputs of an execution are refused, for the first reason among the
/// first `count` inputs.
pub open spec fn inputs_refusal(
    types: Seq<TypeModel>,
    inputs: Seq<BufferModel>,
    count: nat,
) -> Option<Error>
    decreases count,
{
    if count == 0 {
        None
    } else {
        match inputs_refusal(types, inputs, (count - 1) as nat) {
            Some(e) => Some(e),
            None => {
                let at = count - 1;
                if inputs[at].dims != types[at].dims {
                    Some(
                        Error::ExecutableInputShape {
                            index: at as usize,
                            expected: listing(types[at].dims),
                            actual: listing(inputs[at].dims),
                        },
                    )
                } else if inputs[at].dtype != types[at].dtype {
                    Some(
                        Error::ExecutableInputDType {
                            index: at as usize,
                            expected: types[at].dtype,
                            actual: inputs[at].dtype,
                        },
                    )
                } else {
                    None
                }
            },
        }
    }
}

/// Why an execution is refused.
pub open spec fn execution_refusal(types: Seq<TypeModel>, inputs: Seq<BufferModel>) -> Option<
    Error,
> {
    if inputs.len() != types.len() {
        Some(
            Error::ExecutableInputCount {
                expected: types.len() as usize,
                actual: inputs.len() as usize,
            },
        )
    } else {
        inputs_refusal(types, inputs, types.len())
    }
}

/// An early refusal is the refusal of the whole list.
proof fn lemma_inputs_refused(
    types: Seq<TypeModel>,
    inputs: Seq<BufferModel>,
    early: nat,
    count: nat,
)
    requires
        early <= count,
        inputs_refusal(types, inputs, early) is Some,
    ensures
        inputs_refusal(types, inputs, count) == inputs_refusal(types, inputs, early),
    decreases count - early,
{
    if early < count {
        lemma_inputs_refused(types, inputs, early + 1, count);
    }
}

/// Accepted inputs have exactly the types of the program, in order.
pub proof fn accepted_inputs_have_the_declared_types(
    types: Seq<TypeModel>,
    inputs: Seq<BufferModel>,
    count: nat,
)
    requires
        inputs_refusal(types, inputs, count) is None,
        count <= types.len(),
        count <= inputs.len(),
    ensures
        forall|k: int|
            0 <= k < count ==> (#[trigger] inputs[k]).dims == types[k].dims && inputs[k].dtype
                == types[k].dtype,
    decreases count,
{
    if count > 0 {
        accepted_inputs_have_the_declared_types(types, inputs, (count - 1) as nat);
    }
}

/// The position of the first input that is not F32.
pub open spec fn first_other(types: Seq<TypeModel>, count: nat) -> Option<int>
    decreases count,
{
    if count == 0 {
        None
    } else {
        match first_other(types, (count - 1) as nat) {
            Some(k) => Some(k),
            None => if types[count - 1].dtype != DType::F32 {
                Some(count - 1)
            } else {
                None
            },
        }
    }
}

/// Why a run on F32 host data is refused.
pub open spec fn host_run_refusal(types: Seq<TypeModel>, inputs: nat) -> Option<Error> {
    match first_other(types, types.len()) {
        Some(k) => Some(Error::F32InputRequired { index: k as usize, dtype: types[k].dtype }),
        None => if inputs != types.len() {
            Some(
                Error::ExecutableInputCount {
                    expected: types.len() as usize,
                    actual: inputs as usize,
                },
            )
        } else {
            None
        },
    }
}

/// The position of the first device with the wrong number of outputs.
pub open spec fn first_short(lists: Seq<Vec<Buffer>>, expected: usize, count: nat) -> Option<int>
    decreases count,
{
    if count == 0 {
        None
    } else {
        match first_short(lists, expected, (count - 1) as nat) {
            Some(k) => Some(k),
            None => if lists[count - 1]@.len() != expected {
                Some(count - 1)
            } else {
                None
            },
        }
    }
}

/// An early hit is the hit of the whole list.
proof fn lemma_first_short(lists: Seq<Vec<Buffer>>, expected: usize, early: nat, count: nat)
    requires
        early <= count,
        first_short(lists, expected, early) is Some,
    ensures
        first_short(lists, expected, count) == first_short(lists, expected, early),
    decreases count - early,
{
    if early < count {
        lemma_first_short(lists, expected, early + 1, count);
    }
}

/// An early hit is the hit of the whole list.
pub(crate) proof fn lemma_first_other(types: Seq<TypeModel>, early: nat, count: nat)
    requires
        early <= count,
        first_other(types, early) is Some,
    ensures
        first_other(types, count) == first_other(types, early),
    decreases count - early,
{
    if early < count {
        lemma_first_other(types, early + 1, count);
    }
}

/// The result of a replicated execution, from what every device returned.
pub open spec fn replicated(
    devices: usize,
    expected: usize,
    lists: Result<Seq<Vec<Buffer>>, Error>,
) -> Result<Seq<BufferModel>, Error> {
    match lists {
        Err(e) => Err(e),
        Ok(lists) => match first_short(lists, expected, lists.len()) {
            Some(k) => if devices == 1 {
                Ok(buffers_view(lists[0]@))
            } else {
                Err(
                    Error::ShardedOutputCount {
                        device: k as usize,
                        expected,
                        actual: lists[k]@.len() as usize,
                    },
                )
            },
            None => Ok(buffers_view(lists[0]@)),
        },
    }
}

/// The lists of a result.
pub open spec fn lists_view(lists: Result<Vec<Vec<Buffer>>, Error>) -> Result<
    Seq<Vec<Buffer>>,
    Error,
> {
    match lists {
        Ok(list) => Ok(list@),
        Err(e) => Err(e),
    }
}

impl Executable {
    /// The handle of the compiled program.
    pub closed spec fn key(self) -> u64 {
        self.handle
    }

    /// The client that it was compiled for.
    pub closed spec fn owner(self) -> u64 {
        self.client
    }

    /// The types of its inputs.
    pub closed spec fn input_types(self) -> Seq<TypeModel> {
        types_view(self.inputs@)
    }

    /// The number of its outputs.
    pub closed spec fn outputs(self) -> usize {
        self.output_count
    }

    /// The number of devices it runs on.
    pub closed spec fn spread(self) -> usize {
        self.devices
    }

    /// A compiled program with its signature.
    pub fn new(
        handle: u64,
        client: u64,
        devices: usize,
        inputs: Vec<TensorType>,
        output_count: usize,
    ) -> (r: Executable)
        ensures
            r.key() == handle,
            r.owner() == client,
            r.spread() == devices,
            r.input_types() == types_view(inputs@),
            r.outputs() == output_count,
    {
        Executable { handle, client, devices, inputs, output_count }
    }

    /// The handle of the compiled program.
    pub fn handle(&self) -> (r: u64)
        ensures
            r == self.key(),
    {
        self.handle
    }

    /// The client that it was compiled for.
    pub fn client(&self) -> (r: u64)
        ensures
            r == self.owner(),
    {
        self.client
    }

    /// The number of devices it runs on.
    pub fn device_count(&self) -> (r: usize)
        ensures
            r == self.spread(),
    {
        self.devices
    }

    /// The number of inputs, unused ones included.
    pub fn input_count(&self) -> (r: usize)
        ensures
            r == self.input_types().len(),
    {
        self.inputs.len()
    }

    /// The type of an input.
    pub fn input_spec(&self, index: usize) -> (r: Option<InputSpec<'_>>)
        ensures
            match r {
                None => index >= self.input_types().len(),
                Some(spec) => index < self.input_types().len() && spec.shape@
                    == self.input_types()[index as int].dims && spec.dtype
                    == self.input_types()[index as int].dtype,
            },
    {
        if index >= self.inputs.len() {
            return None;
        }
        let ty: &TensorType = &self.inputs[index];
        assert(self.input_types()[index as int] == ty@);
        Some(InputSpec { shape: ty.dims.as_slice(), dtype: ty.dtype })
    }

    /// The number of outputs.
    pub fn output_count(&self) -> (r: usize)
        ensures
            r == self.outputs(),
    {
        self.output_count
    }

    /// The types of the inputs.
    pub(crate) fn types(&self) -> (r: &Vec<TensorType>)
        ensures
            types_view(r@) == self.input_types(),
    {
        &self.inputs
    }

    /// Check the inputs of an execution.
    pub fn validate_inputs(&self, inputs: &[Buffer]) -> (r: Result<(), Error>)
        ensures
            match r {
                Ok(_) => execution_refusal(self.input_types(), buffers_view(inputs@)) is None,
                Err(e) => execution_refusal(self.input_types(), buffers_view(inputs@)) == Some(e),
            },
    {
        let ghost types = self.input_types();
        let ghost models = buffers_view(inputs@);
        if inputs.len() != self.inputs.len() {
            return Err(
                Error::ExecutableInputCount {
                    expected: self.inputs.len(),
                    actual: inputs.len(),
                },
            );
        }
        let mut i: usize = 0;
        while i < inputs.len()
            invariant
                types == self.input_types(),
                models == buffers_view(inputs@),
                inputs@.len() == self.inputs@.len(),
                i <= inputs@.len(),
                inputs_refusal(types, models, i as nat) is None,
            decreases inputs@.len() - i,
        {
            let buffer: &Buffer = &inputs[i];
            let expected: &TensorType = &self.inputs[i];
            proof {
                assert(types[i as int] == expected@);
                assert(models[i as int] == buffer@);
                if inputs_refusal(types, models, (i + 1) as nat) is Some {
                    lemma_inputs_refused(types, models, (i + 1) as nat, types.len());
                }
            }
            if !same_dims(buffer.dims.as_slice(), expected.dims.as_slice()) {
                return Err(
                    Error::ExecutableInputShape {
                        index: i,
                        expected: listed(expected.dims.as_slice()),
                        actual: listed(buffer.dims.as_slice()),
                    },
                );
            }
            if buffer.dtype != expected.dtype {
                return Err(
                    Error::ExecutableInputDType {
                        index: i,
                        expected: expected.dtype,
                        actual: buffer.dtype,
                    },
                );
            }
            i += 1;
        }
        Ok(())
    }

    /// Execute on resident inputs: the outcome of the backend counts only where
    /// the inputs are accepted.
    pub fn execute(&self, inputs: &[Buffer], outcome: Result<Vec<Buffer>, Error>) -> (r: Result<
        Vec<Buffer>,
        Error,
    >)
        ensures
            outcome_view(r) == match execution_refusal(self.input_types(), buffers_view(inputs@)) {
                Some(e) => Err::<Seq<BufferModel>, Error>(e),
                None => outcome_view(outcome),
            },
    {
        match self.validate_inputs(inputs) {
            Ok(_) => outcome,
            Err(e) => Err(e),
        }
    }

    /// Submit an execution on resident inputs: what was submitted counts only
    /// where the inputs are accepted.
    pub fn submit<T>(&self, inputs: &[Buffer], outcome: Result<T, Error>) -> (r: Result<T, Error>)
        ensures
            r == match execution_refusal(self.input_types(), buffers_view(inputs@)) {
                Some(e) => Err::<T, Error>(e),
                None => outcome,
            },
    {
        match self.validate_inputs(inputs) {
            Ok(_) => outcome,
            Err(e) => Err(e),
        }
    }

    /// Execute with whole copies of the inputs on every device. The outputs of
    /// the first device come back, if every device of several returned as many
    /// as the program has.
    pub fn execute_replicated(
        &self,
        inputs: &[Buffer],
        outcome: Result<Vec<Vec<Buffer>>, Error>,
    ) -> (r: Result<Vec<Buffer>, Error>)
        requires
            outcome matches Ok(lists) ==> lists@.len() > 0,
        ensures
            outcome_view(r) == match execution_refusal(self.input_types(), buffers_view(inputs@)) {
                Some(e) => Err::<Seq<BufferModel>, Error>(e),
                None => replicated(self.spread(), self.outputs(), lists_view(outcome)),
            },
    {
        match self.validate_inputs(inputs) {
            Ok(_) => {},
            Err(e) => {
                return Err(e);
            },
        }
        let mut lists: Vec<Vec<Buffer>> = match outcome {
            Ok(lists) => lists,
            Err(e) => {
                return Err(e);
            },
        };
        let ghost all = lists@;
        if self.devices != 1 {
            let mut i: usize = 0;
            while i < lists.len()
                invariant
                    all == lists@,
                    self.devices != 1,
                    lists_view(outcome) == Ok::<Seq<Vec<Buffer>>, Error>(all),
                    execution_refusal(self.input_types(), buffers_view(inputs@)) is None,
                    i <= lists@.len(),
                    first_short(all, self.output_count, i as nat) is None,
                decreases lists@.len() - i,
            {
                if lists[i].len() != self.output_count {
                    proof {
                        lemma_first_short(all, self.output_count, (i + 1) as nat, all.len());
                    }
                    return Err(
                        Error::ShardedOutputCount {
                            device: i,
                            expected: self.output_count,
                            actual: lists[i].len(),
                        },
                    );
                }
                i += 1;
            }
        }
        let first: Vec<Buffer> = lists.remove(0);
        Ok(first)
    }

    /// Run on F32 host data, given as bit patterns.
    pub fn run_many(&self, inputs: usize, outcome: Result<Vec<Vec<u32>>, Error>) -> (r: Result<
        Vec<Vec<u32>>,
        Error,
    >)
        ensures
            match host_run_refusal(self.input_types(), inputs as nat) {
                Some(e) => r == Err::<Vec<Vec<u32>>, Error>(e),
                None => r == outcome,
            },
    {
        let ghost types = self.input_types();
        let mut i: usize = 0;
        while i < self.inputs.len()
            invariant
                types == self.input_types(),
                i <= self.inputs@.len(),
                first_other(types, i as nat) is None,
            decreases self.inputs@.len() - i,
        {
            assert(types[i as int] == self.inputs@[i as int]@);
            if self.inputs[i].dtype != DType::F32 {
                proof {
                    lemma_first_other(types, (i + 1) as nat, types.len());
                }
                return Err(Error::F32InputRequired { index: i, dtype: self.inputs[i].dtype });
            }
            i += 1;
        }
        if inputs != self.inputs.len() {
            return Err(
                Error::ExecutableInputCount { expected: self.inputs.len(), actual: inputs },
            );
        }
        outcome
    }

    /// Run a program with one output on F32 host data, given as bit patterns.
    pub fn run(&self, inputs: usize, outcome: Result<Vec<Vec<u32>>, Error>) -> (r: Result<
        Vec<u32>,
        Error,
    >)
        requires
            outcome matches Ok(lists) ==> lists@.len() > 0,
        ensures
            if self.outputs() != 1 {
                r == Err::<Vec<u32>, Error>(Error::SingleOutputRequired { actual: self.outputs() })
            } else {
                match host_run_refusal(self.input_types(), inputs as nat) {
                    Some(e) => r == Err::<Vec<u32>, Error>(e),
                    None => match outcome {
                        Ok(lists) => r == Ok::<Vec<u32>, Error>(lists@[0]),
                        Err(e) => r == Err::<Vec<u32>, Error>(e),
                    },
                }
            },
    {
        if self.output_count != 1 {
            return Err(Error::SingleOutputRequired { actual: self.output_count });
        }
        let mut outputs: Vec<Vec<u32>> = self.run_many(inputs, outcome)?;
        Ok(outputs.remove(0))
    }
}

/// An optimized program: its format, and what its bytes decode to as a module
/// and as a module with configuration, or why they do not.
pub struct OptimizedProgram<M> {
    pub format: String,
    pub plain: Result<M, String>,
    pub configured: Result<Option<M>, String>,
}

/// The module of an optimized program, which its format says how to find.
pub open spec fn optimized_module<M>(program: OptimizedProgram<M>) -> Result<M, Error> {
    if program.format@ == "hlo"@ {
        match program.plain {
            Ok(module) => Ok(module),
            Err(reason) => Err(Error::OptimizedProgramDecode { format: program.format, reason }),
        }
    } else if program.format@ == "hlo_with_config"@ {
        match program.configured {
            Ok(Some(module)) => Ok(module),
            Ok(None) => Err(Error::MissingOptimizedHloModule),
            Err(reason) => Err(Error::OptimizedProgramDecode { format: program.format, reason }),
        }
    } else {
        Err(Error::UnsupportedOptimizedProgram { format: program.format })
    }
}

/// The module of an optimized program.
pub fn decode_optimized_hlo<M>(program: OptimizedProgram<M>) -> (r: Result<M, Error>)
    ensures
        r == optimized_module(program),
{
    let OptimizedProgram { format, plain, configured } = program;
    if same_text(format.as_str(), "hlo") {
        match plain {
            Ok(module) => Ok(module),
            Err(reason) => Err(Error::OptimizedProgramDecode { format, reason }),
        }
    } else if same_text(format.as_str(), "hlo_with_config") {
        match configured {
            Ok(Some(module)) => Ok(module),
            Ok(None) => Err(Error::MissingOptimizedHloModule),
            Err(reason) => Err(Error::OptimizedProgramDecode { format, reason }),
        }
    } else {
        Err(Error::UnsupportedOptimizedProgram { format })
    }
}

impl Executable {
    /// The optimized module of the backend, given the program that it handed
    /// out for this handle.
    pub fn optimized_hlo_proto<M>(&self, program: Result<OptimizedProgram<M>, Error>) -> (r: Result<
        M,
        Error,
    >)
        ensures
            r == match program {
                Ok(program) => optimized_module(program),
                Err(e) => Err(e),
            },
    {
        match program {
            Ok(program) => decode_optimized_hlo(program),
            Err(e) => Err(e),
        }
    }
}

} // verus!

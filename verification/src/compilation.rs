//! Compilations and runs that begin at a graph, a trace or a program.
use crate::compile_options::{default_options, first_selected, CompileOptions};
use crate::compiler::{prepares_to, program_key, BackendOutcome, LoweredProgram};
use crate::error::{invalid, Error};
use crate::executable::Executable;
use crate::graph::{values_of, Graph, Tensor, TensorType};
use crate::interface::{all_local, types_view};
use crate::plan::duplicate_types;
use crate::runtime::{
    compiles_to, run_buffers_refusal, run_refusal, run_tensors_refusal, unless_refused, Client,
    Residence, Runtime,
};
use crate::tracer::{Program, TensorFunction, Tracer};
use vstd::prelude::*;

verus! {

/// Whether a result is the executable of a program on a client's selected
/// device, given what the client made of it.
pub open spec fn compiled_alone(
    program: Result<LoweredProgram, Error>,
    client: Client,
    outcome: Result<u64, Error>,
    r: Result<Executable, Error>,
) -> bool {
    match program {
        Err(e) => r == Err::<Executable, Error>(e),
        Ok(lowered) => if first_selected(client.devices@, client.devices@.len()) is None {
            r == Err::<Executable, Error>(invalid("client has no selected compilation device"))
        } else {
            match outcome {
                Err(e) => r == Err::<Executable, Error>(e),
                Ok(handle) => (r matches Ok(executable) && executable.key() == handle
                    && executable.owner() == client.handle && executable.spread() == 1
                    && executable.input_types() == lowered.input_types() && executable.outputs()
                    == lowered.output_types().len()),
            }
        },
    }
}

impl LoweredProgram {
    /// Compile on a client's selected device, past any cache, given what the
    /// client made of the program.
    pub(crate) fn compile_uncached(&self, client: &Client, outcome: Result<u64, Error>) -> (r:
        Result<Executable, Error>)
        ensures
            compiled_alone(Ok(*self), *client, outcome, r),
    {
        let _options: CompileOptions = default_options(&client.devices)?;
        match outcome {
            Err(e) => Err(e),
            Ok(handle) => Ok(
                Executable::new(
                    handle,
                    client.handle,
                    1,
                    duplicate_types(self.inputs()),
                    self.output_count(),
                ),
            ),
        }
    }
}

impl Graph {
    /// Compile one output, with all declared inputs.
    pub fn compile(
        &self,
        client: &Client,
        output: &Tensor,
        code: &str,
        outcome: Result<u64, Error>,
    ) -> (r: Result<Executable, Error>)
        requires
            self.wf(),
            self.admits(*output),
        ensures
            exists|outputs: Seq<Tensor>, program: Result<LoweredProgram, Error>|
                outputs.len() == 1 && outputs[0]@ == output@ && outputs[0].id() == output.id()
                    && #[trigger] prepares_to(*self, outputs, true, code@, program)
                    && compiled_alone(program, *client, outcome, r),
    {
        let outputs: Vec<Tensor> = vec![output.copy()];
        assert(self.admits(outputs@[0]));
        self.compile_many(client, outputs.as_slice(), code, outcome)
    }

    /// Compile several outputs together, with all declared inputs.
    pub fn compile_many(
        &self,
        client: &Client,
        outputs: &[Tensor],
        code: &str,
        outcome: Result<u64, Error>,
    ) -> (r: Result<Executable, Error>)
        requires
            self.wf(),
            self.admits_all(outputs@),
        ensures
            exists|program: Result<LoweredProgram, Error>| #[trigger]
                prepares_to(*self, outputs@, true, code@, program) && compiled_alone(
                    program,
                    *client,
                    outcome,
                    r,
                ),
    {
        let program: Result<LoweredProgram, Error> = self.prepare_many(outputs, code);
        assert(prepares_to(*self, outputs@, true, code@, program));
        match program {
            Ok(lowered) => lowered.compile_uncached(client, outcome),
            Err(e) => Err(e),
        }
    }
}

impl Tracer {
    /// The textual form of one output, unless it is refused.
    pub fn stablehlo(&self, output: &Tensor, text: Result<String, Error>) -> (r: Result<
        String,
        Error,
    >)
        requires
            self.wf(),
            self.tensors().admits(*output),
        ensures
            r == if output@.graph != self.tensors().key() {
                Err::<String, Error>(invalid("output belongs to another graph"))
            } else {
                text
            },
    {
        self.dataflow().stablehlo(output, text)
    }

    /// The textual form of several outputs, unless it is refused.
    pub fn stablehlo_many(&self, outputs: &[Tensor], text: Result<String, Error>) -> (r: Result<
        String,
        Error,
    >)
        requires
            self.wf(),
            self.tensors().admits_all(outputs@),
        ensures
            r == if outputs@.len() == 0 {
                Err::<String, Error>(invalid("at least one output is required"))
            } else if !all_local(self.tensors().key(), values_of(outputs@)) {
                Err(invalid("output belongs to another graph"))
            } else {
                text
            },
    {
        self.dataflow().stablehlo_many(outputs, text)
    }

    /// Compile one output, with all declared inputs.
    pub fn compile(
        &self,
        client: &Client,
        output: &Tensor,
        code: &str,
        outcome: Result<u64, Error>,
    ) -> (r: Result<Executable, Error>)
        requires
            self.wf(),
            self.tensors().admits(*output),
        ensures
            exists|outputs: Seq<Tensor>, program: Result<LoweredProgram, Error>|
                outputs.len() == 1 && outputs[0]@ == output@ && outputs[0].id() == output.id()
                    && #[trigger] prepares_to(self.tensors(), outputs, true, code@, program)
                    && compiled_alone(program, *client, outcome, r),
    {
        self.dataflow().compile(client, output, code, outcome)
    }

    /// Compile several outputs together, with all declared inputs.
    pub fn compile_many(
        &self,
        client: &Client,
        outputs: &[Tensor],
        code: &str,
        outcome: Result<u64, Error>,
    ) -> (r: Result<Executable, Error>)
        requires
            self.wf(),
            self.tensors().admits_all(outputs@),
        ensures
            exists|program: Result<LoweredProgram, Error>| #[trigger]
                prepares_to(self.tensors(), outputs@, true, code@, program) && compiled_alone(
                    program,
                    *client,
                    outcome,
                    r,
                ),
    {
        self.dataflow().compile_many(client, outputs, code, outcome)
    }
}

impl Program {
    /// Compile for the default device of a runtime.
    pub fn compile(&self, runtime: &mut Runtime, options: &[u8], outcome: BackendOutcome) -> (r:
        Result<u64, Error>)
        requires
            old(runtime).wf(),
        ensures
            final(runtime).wf(),
            compiles_to(
                *old(runtime),
                *final(runtime),
                old(runtime).chosen(),
                self.facts(),
                program_key("mlir"@, self.form().source()),
                options@,
                outcome,
                r,
            ),
    {
        runtime.compile(self, options, outcome)
    }

    /// Run on F32 host data on the default device of a runtime.
    pub fn run<T>(&self, runtime: &Runtime, inputs: usize, outcome: Result<T, Error>) -> (r: Result<
        T,
        Error,
    >)
        ensures
            r == unless_refused(
                run_refusal(
                    runtime.backends(),
                    runtime.chosen(),
                    self.form().input_types(),
                    inputs as nat,
                ),
                outcome,
            ),
    {
        runtime.run(self, inputs, outcome)
    }

    /// Run on resident buffers of the default device of a runtime.
    pub fn run_buffers<T>(
        &self,
        runtime: &Runtime,
        inputs: &[Residence],
        outcome: Result<T, Error>,
    ) -> (r: Result<T, Error>)
        ensures
            r == unless_refused(
                run_buffers_refusal(runtime.backends(), runtime.chosen(), inputs@),
                outcome,
            ),
    {
        runtime.run_buffers(inputs, outcome)
    }

    /// Run on tensors on the default device of a runtime.
    pub fn run_tensors<T>(
        &self,
        runtime: &Runtime,
        inputs: &[TensorType],
        outcome: Result<T, Error>,
    ) -> (r: Result<T, Error>)
        ensures
            r == unless_refused(
                run_tensors_refusal(
                    runtime.backends(),
                    runtime.chosen(),
                    self.form().input_types(),
                    types_view(inputs@),
                ),
                outcome,
            ),
    {
        runtime.run_tensors(self, inputs, outcome)
    }
}

impl TensorFunction {
    /// Compile for the default device of a runtime, without a call.
    pub fn compile(&self, runtime: &mut Runtime, options: &[u8], outcome: BackendOutcome) -> (r:
        Result<u64, Error>)
        requires
            old(runtime).wf(),
        ensures
            final(runtime).wf(),
            compiles_to(
                *old(runtime),
                *final(runtime),
                old(runtime).chosen(),
                self.body().facts(),
                program_key("mlir"@, self.body().form().source()),
                options@,
                outcome,
                r,
            ),
    {
        runtime.compile(self.program(), options, outcome)
    }
}

} // verus!

//! The tools a model can call: their decisions, apart from the files and
//! processes they touch.

pub mod read;
pub mod edit;
pub mod bash;
pub mod write;

use vstd::prelude::*;

verus! {

/// What a parameter of a tool takes.
#[derive(Debug, Clone, Copy, PartialEq, Eq, Structural)]
pub enum Schema {
    String,
    Integer,
    Boolean,
}

/// A parameter of a tool: its name, what it is for, what it takes, and
/// whether a call must give it.
#[derive(Debug, Clone, Copy)]
pub struct Parameter {
    pub name: &'static str,
    pub description: &'static str,
    pub schema: Schema,
    pub required: bool,
}

/// A tool the model can call: its name, what it does, and its
/// parameters.
#[derive(Debug, Clone)]
pub struct Tool {
    pub name: &'static str,
    pub description: &'static str,
    pub parameters: Vec<Parameter>,
}

/// A parameter, by what a call must know of it: its name, what it takes,
/// whether it is required.
pub open spec fn signature(p: Parameter) -> (Seq<char>, Schema, bool) {
    (p.name@, p.schema, p.required)
}

/// The builtin tools, by their names and the signatures of their
/// parameters, in the order of their names.
pub open spec fn builtin_table() -> Seq<(Seq<char>, Seq<(Seq<char>, Schema, bool)>)> {
    seq![
        (
            "bash"@,
            seq![("command"@, Schema::String, true), ("description"@, Schema::String, false)],
        ),
        (
            "edit"@,
            seq![
                ("path"@, Schema::String, true),
                ("old_string"@, Schema::String, true),
                ("new_string"@, Schema::String, true),
                ("replace_all"@, Schema::Boolean, false),
            ],
        ),
        (
            "read"@,
            seq![
                ("path"@, Schema::String, true),
                ("offset"@, Schema::Integer, false),
                ("limit"@, Schema::Integer, false),
            ],
        ),
        ("write"@, seq![("path"@, Schema::String, true), ("content"@, Schema::String, true)]),
    ]
}

/// What the builtin tools do, in the order of their names.
pub open spec fn builtin_descriptions() -> Seq<Seq<char>> {
    seq![
        "Run a bash command"@,
        "Edit a file by replacing an exact string match. old_string must match exactly one location in the file, including whitespace and indentation, unless replace_all is set"@,
        "Read file contents"@,
        "Write file contents"@,
    ]
}

/// What the parameters of the builtin tools are for, tool by tool.
pub open spec fn parameter_descriptions() -> Seq<Seq<Seq<char>>> {
    seq![
        seq!["Command to run"@, "A short 3-5 word summary of the command"@],
        seq![
            "Path of the file"@,
            "Exact text to replace"@,
            "Text to replace it with"@,
            "Replace all occurrences instead of requiring a unique match"@,
        ],
        seq![
            "Path of the file"@,
            "1-based line number to start reading from"@,
            "Maximum number of lines to read"@,
        ],
        seq!["Path of the file"@, "Contents to write to the file"@],
    ]
}

/// What the parameters of a tool are for, in order.
pub open spec fn described(t: Tool) -> Seq<Seq<char>> {
    t.parameters@.map_values(|p: Parameter| p.description@)
}

/// A tool, by its name and the signatures of its parameters.
pub open spec fn tool_signature(t: Tool) -> (Seq<char>, Seq<(Seq<char>, Schema, bool)>) {
    (t.name@, t.parameters@.map_values(|p: Parameter| signature(p)))
}

fn parameter(
    name: &'static str,
    description: &'static str,
    schema: Schema,
    required: bool,
) -> (p: Parameter)
    ensures
        p.name@ == name@,
        p.description@ == description@,
        p.schema == schema,
        p.required == required,
{
    Parameter { name, description, schema, required }
}

impl Tool {
    /// The builtin tools, in the order of their names: the metadata is
    /// sent with every request, where it is part of the prefix the
    /// server's prompt cache matches, so the order must not vary from
    /// process to process.
    pub fn builtins() -> (tools: Vec<Tool>)
        ensures
            tools@.map_values(|t: Tool| t.name@) == seq!["bash"@, "edit"@, "read"@, "write"@],
            tools@.map_values(|t: Tool| tool_signature(t)) == builtin_table(),
            tools@.map_values(|t: Tool| t.description@) == builtin_descriptions(),
            tools@.map_values(|t: Tool| described(t)) == parameter_descriptions(),
    {
        let mut bash: Vec<Parameter> = Vec::new();
        bash.push(parameter("command", "Command to run", Schema::String, true));
        bash.push(
            parameter(
                "description",
                "A short 3-5 word summary of the command",
                Schema::String,
                false,
            ),
        );
        let mut edit: Vec<Parameter> = Vec::new();
        edit.push(parameter("path", "Path of the file", Schema::String, true));
        edit.push(parameter("old_string", "Exact text to replace", Schema::String, true));
        edit.push(parameter("new_string", "Text to replace it with", Schema::String, true));
        edit.push(
            parameter(
                "replace_all",
                "Replace all occurrences instead of requiring a unique match",
                Schema::Boolean,
                false,
            ),
        );
        let mut read: Vec<Parameter> = Vec::new();
        read.push(parameter("path", "Path of the file", Schema::String, true));
        read.push(
            parameter(
                "offset",
                "1-based line number to start reading from",
                Schema::Integer,
                false,
            ),
        );
        read.push(parameter("limit", "Maximum number of lines to read", Schema::Integer, false));
        let mut write: Vec<Parameter> = Vec::new();
        write.push(parameter("path", "Path of the file", Schema::String, true));
        write.push(parameter("content", "Contents to write to the file", Schema::String, true));
        let mut tools: Vec<Tool> = Vec::new();
        tools.push(Tool { name: "bash", description: "Run a bash command", parameters: bash });
        tools.push(
            Tool {
                name: "edit",
                description: "Edit a file by replacing an exact string match. old_string must match exactly one location in the file, including whitespace and indentation, unless replace_all is set",
                parameters: edit,
            },
        );
        tools.push(Tool { name: "read", description: "Read file contents", parameters: read });
        tools.push(Tool { name: "write", description: "Write file contents", parameters: write });
        proof {
            assert(tools@.map_values(|t: Tool| t.name@) =~= seq![
                "bash"@,
                "edit"@,
                "read"@,
                "write"@,
            ]);
            assert(tools@[0].parameters@.map_values(|p: Parameter| signature(p))
                =~= builtin_table()[0].1);
            assert(tools@[1].parameters@.map_values(|p: Parameter| signature(p))
                =~= builtin_table()[1].1);
            assert(tools@[2].parameters@.map_values(|p: Parameter| signature(p))
                =~= builtin_table()[2].1);
            assert(tools@[3].parameters@.map_values(|p: Parameter| signature(p))
                =~= builtin_table()[3].1);
            assert(tools@.map_values(|t: Tool| tool_signature(t)) =~= builtin_table());
            assert(tools@.map_values(|t: Tool| t.description@) =~= builtin_descriptions());
            assert(described(tools@[0]) =~= parameter_descriptions()[0]);
            assert(described(tools@[1]) =~= parameter_descriptions()[1]);
            assert(described(tools@[2]) =~= parameter_descriptions()[2]);
            assert(described(tools@[3]) =~= parameter_descriptions()[3]);
            assert(tools@.map_values(|t: Tool| described(t)) =~= parameter_descriptions());
        }
        tools
    }
}

/// The names of the parameters of `ps` that a call must give, in order.
pub open spec fn required_names(ps: Seq<Parameter>) -> Seq<Seq<char>>
    decreases ps.len(),
{
    if ps.len() == 0 {
        seq![]
    } else if ps.last().required {
        required_names(ps.drop_last()).push(ps.last().name@)
    } else {
        required_names(ps.drop_last())
    }
}

impl Tool {
    /// The names of the parameters a call of the tool must give, in the
    /// order of the parameters: the `required` list of its schema.
    pub fn required(&self) -> (r: Vec<&'static str>)
        ensures
            r@.map_values(|n: &'static str| n@) == required_names(self.parameters@),
    {
        let mut r: Vec<&'static str> = Vec::new();
        let mut i: usize = 0;
        while i < self.parameters.len()
            invariant
                i <= self.parameters.len(),
                r@.map_values(|n: &'static str| n@) == required_names(self.parameters@.take(i as int)),
            decreases self.parameters.len() - i,
        {
            proof {
                let t = self.parameters@.take(i + 1);
                assert(t.drop_last() =~= self.parameters@.take(i as int));
                assert(t.last() == self.parameters@[i as int]);
            }
            let ghost before = r@;
            let p = self.parameters[i];
            if p.required {
                r.push(p.name);
                assert(r@.map_values(|n: &'static str| n@) =~= before.map_values(
                    |n: &'static str| n@,
                ).push(p.name@));
            }
            i = i + 1;
        }
        assert(self.parameters@.take(i as int) =~= self.parameters@);
        r
    }
}

} // verus!

//! What to run for an authenticated delivery, and what its result means.

use crate::config::{texts, WebhookConfig};
use crate::template::{pairs, render_spec, trim_text, trimmed, Namespace};
use vstd::prelude::*;

verus! {

/// A process to start: a program and its arguments.
pub struct Invocation {
    pub program: String,
    pub args: Vec<String>,
}

impl View for Invocation {
    type V = (Seq<char>, Seq<Seq<char>>);

    open spec fn view(&self) -> (Seq<char>, Seq<Seq<char>>) {
        (self.program@, texts(self.args@))
    }
}

impl Invocation {
    /// The same invocation with one more argument at the end.
    pub fn with_argument(self, arg: String) -> (r: Invocation)
        ensures
            r@ == (self@.0, self@.1.push(arg@)),
    {
        let mut args = self.args;
        args.push(arg);
        let r = Invocation { program: self.program, args };
        assert(r@.1 =~= self@.1.push(arg@));
        r
    }
}

/// The work a definition asks for.
pub enum Job {
    /// Start this invocation as it stands.
    Run(Invocation),
    /// Read the script template at the path, render it with
    /// [`render_script`], write it to a fresh executable file, and start the
    /// shell invocation with that file's path appended.
    Script(Invocation, String),
}

/// Why a dispatch failed.
pub enum ExecError {
    /// The definition names neither a command nor a script.
    NoCommand,
    /// The shell override is an empty list.
    EmptyShell,
    /// The command template did not render.
    RenderCommand,
    /// The script template did not render.
    RenderScript,
    /// Reading the script, writing it out, or starting the process failed.
    Io(String),
    /// The process exited unsuccessfully; the text holds its status, stderr
    /// and stdout.
    Failed(String),
}

impl ExecError {
    /// The account of the failure.
    pub open spec fn message_spec(&self) -> Seq<char> {
        match *self {
            ExecError::NoCommand => "No command or script provided"@,
            ExecError::EmptyShell => "Shell override names no program"@,
            ExecError::RenderCommand => "Failed to render command"@,
            ExecError::RenderScript => "Failed to render script"@,
            ExecError::Io(m) => m@,
            ExecError::Failed(m) => m@,
        }
    }

    /// A human-readable account of the failure.
    pub fn message(&self) -> (r: String)
        ensures
            r@ == self.message_spec(),
    {
        match self {
            ExecError::NoCommand => "No command or script provided".to_string(),
            ExecError::EmptyShell => "Shell override names no program".to_string(),
            ExecError::RenderCommand => "Failed to render command".to_string(),
            ExecError::RenderScript => "Failed to render script".to_string(),
            ExecError::Io(m) => m.clone(),
            ExecError::Failed(m) => m.clone(),
        }
    }
}

/// The interpreter and its leading arguments: `sh -c` by default, else the
/// override's first entry and the rest; `None` for an empty override.
pub open spec fn shell_spec(shell: Option<Seq<Seq<char>>>) -> Option<(Seq<char>, Seq<Seq<char>>)> {
    match shell {
        None => Some(("sh"@, seq!["-c"@])),
        Some(v) => if v.len() == 0 {
            None
        } else {
            Some((v[0], v.drop_first()))
        },
    }
}

/// The shell invocation of a definition, before its final argument.
pub fn shell_invocation(def: &WebhookConfig) -> (r: Result<Invocation, ExecError>)
    ensures
        match shell_spec(def@.shell) {
            None => r matches Err(ExecError::EmptyShell),
            Some(s) => r matches Ok(inv) && inv@ == s,
        },
{
    match &def.shell {
        None => {
            let mut args: Vec<String> = Vec::new();
            args.push("-c".to_string());
            let r = Invocation { program: "sh".to_string(), args };
            assert(r@.1 =~= seq!["-c"@]);
            Ok(r)
        },
        Some(v) => {
            if v.len() == 0 {
                return Err(ExecError::EmptyShell);
            }
            let program = v[0].clone();
            let mut args: Vec<String> = Vec::new();
            let mut i: usize = 1;
            while i < v.len()
                invariant
                    1 <= i <= v@.len(),
                    texts(args@) == texts(v@).subrange(1, i as int),
                decreases v@.len() - i,
            {
                let ghost before = args@;
                let a = v[i].clone();
                args.push(a);
                assert(args@ == before.push(a));
                assert(a@ == texts(v@)[i as int]);
                assert(texts(args@) =~= texts(before).push(a@));
                assert(texts(v@).subrange(1, i + 1) =~= texts(v@).subrange(1, i as int).push(a@));
                i = i + 1;
            }
            let r = Invocation { program, args };
            assert(texts(v@).drop_first() =~= texts(v@).subrange(1, v@.len() as int));
            Ok(r)
        },
    }
}

/// Decides the work for a definition under a namespace. A script wins over
/// a command; a command is trimmed, rendered, and handed to the shell as
/// its final argument. A command that holds `${{` must be ASCII with at
/// most [`crate::template::MAX_TEMPLATE_PARENS`] opening parentheses, or it does not render.
pub fn plan(def: &WebhookConfig, ns: &Namespace) -> (r: Result<Job, ExecError>)
    ensures
        match shell_spec(def@.shell) {
            None => r matches Err(ExecError::EmptyShell),
            Some(s) => match def@.script {
                Some(path) => r matches Ok(Job::Script(inv, p)) && inv@ == s && p@ == path,
                None => match def@.command {
                    None => r matches Err(ExecError::NoCommand),
                    Some(c) => match render_spec(pairs(ns.bindings@), trimmed(c)) {
                        None => r matches Err(ExecError::RenderCommand),
                        Some(text) => r matches Ok(Job::Run(inv)) && inv@ == (s.0, s.1.push(text)),
                    },
                },
            },
        },
{
    let shell = match shell_invocation(def) {
        Ok(inv) => inv,
        Err(e) => {
            return Err(e);
        },
    };
    if let Some(path) = &def.script {
        return Ok(Job::Script(shell, path.clone()));
    }
    match &def.command {
        None => Err(ExecError::NoCommand),
        Some(c) => match ns.render(trim_text(c.as_str())) {
            None => Err(ExecError::RenderCommand),
            Some(text) => Ok(Job::Run(shell.with_argument(text))),
        },
    }
}

/// Renders a script template, trimmed, under a namespace. A script that
/// holds `${{` must be ASCII with at most [`crate::template::MAX_TEMPLATE_PARENS`] opening
/// parentheses, or it does not render.
pub fn render_script(ns: &Namespace, content: &str) -> (r: Result<String, ExecError>)
    ensures
        match render_spec(pairs(ns.bindings@), trimmed(content@)) {
            None => r matches Err(ExecError::RenderScript),
            Some(text) => r matches Ok(s) && s@ == text,
        },
{
    match ns.render(trim_text(content)) {
        None => Err(ExecError::RenderScript),
        Some(text) => Ok(text),
    }
}

/// The text reported for a process that exited unsuccessfully.
pub open spec fn failure_text(status: Seq<char>, context: Seq<char>, stderr: Seq<char>, stdout: Seq<char>) -> Seq<
    char,
> {
    "Command failed ("@ + status + " - "@ + context + "):\nSTDERR: "@ + stderr + "\nSTDOUT: "@ + stdout
}

/// The result of a finished process: its trimmed stdout when it
/// succeeded, else a failure carrying its status, what it ran, stderr and
/// stdout.
pub fn command_outcome(success: bool, status: &str, context: &str, stderr: &str, stdout: &str) -> (r:
    Result<String, ExecError>)
    ensures
        success ==> (r matches Ok(s) && s@ == trimmed(stdout@)),
        !success ==> (r matches Err(ExecError::Failed(m)) && m@ == failure_text(
            status@,
            context@,
            stderr@,
            stdout@,
        )),
{
    if success {
        Ok(trim_text(stdout).to_string())
    } else {
        let mut m = "Command failed (".to_string();
        m.append(status);
        m.append(" - ");
        m.append(context);
        m.append("):\nSTDERR: ");
        m.append(stderr);
        m.append("\nSTDOUT: ");
        m.append(stdout);
        Err(ExecError::Failed(m))
    }
}

} // verus!

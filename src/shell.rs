//! How commands are run: locally through `bash -c`, or inside a container
//! with mounts and an optional network, and how values are quoted for the
//! shell.

use vstd::prelude::*;

verus! {

/// Characters that the shell reads literally.
pub open spec fn shell_safe(c: char) -> bool {
    ('a' <= c && c <= 'z') || ('A' <= c && c <= 'Z') || ('0' <= c && c <= '9') || c == '-' || c == '_' || c
        == '=' || c == '/' || c == ',' || c == '.' || c == '+'
}

pub open spec fn quote_for_shell(c: char) -> Seq<char> {
    if c == '\'' || c == '!' {
        seq!['\'', '\\', c, '\'']
    } else {
        seq![c]
    }
}

pub open spec fn shell_quoted_body(s: Seq<char>) -> Seq<char>
    decreases s.len(),
{
    if s.len() == 0 {
        Seq::empty()
    } else {
        shell_quoted_body(s.drop_last()) + quote_for_shell(s.last())
    }
}

/// `s` as a single shell word: unchanged when every character is safe and
/// it is not empty, else between single quotes with `'` and `!` escaped.
pub open spec fn shell_quoted(s: Seq<char>) -> Seq<char> {
    if s.len() > 0 && forall|i: int| 0 <= i < s.len() ==> shell_safe(#[trigger] s[i]) {
        s
    } else {
        seq!['\''] + shell_quoted_body(s) + seq!['\'']
    }
}

/// Relies on `shell_escape::unix::escape`: returns the text unchanged when it
/// is non-empty and every character is in `a-z A-Z 0-9 - _ = / , . +`, else
/// wraps it in `'`, writing each `'` and `!` as `'\X'`.
#[verifier::external_body]
pub fn shell_escape(s: &str) -> (r: String)
    ensures
        r@ == shell_quoted(s@),
{
    shell_escape::unix::escape(std::borrow::Cow::Borrowed(s)).into_owned()
}

/// Values that can be written as one shell word.
pub trait ShellEscaped {
    spec fn text_view(&self) -> Seq<char>;

    /// This value quoted for the shell.
    fn shell_escaped(&self) -> (r: String)
        ensures
            r@ == shell_quoted(self.text_view()),
    ;
}

impl ShellEscaped for str {
    open spec fn text_view(&self) -> Seq<char> {
        self@
    }

    fn shell_escaped(&self) -> (r: String) {
        shell_escape(self)
    }
}

impl ShellEscaped for String {
    open spec fn text_view(&self) -> Seq<char> {
        self@
    }

    fn shell_escaped(&self) -> (r: String) {
        shell_escape(self.as_str())
    }
}

/// A command runner: where commands run, and in which container if any.
#[derive(Debug)]
pub struct Shell {
    pub working_dir: String,
    pub docker_image: Option<String>,
    pub mount_binds: Vec<String>,
    pub network_enabled: bool,
}

impl Shell {
    /// Runs locally in `working_dir`, with the network on.
    pub fn new(working_dir: &str) -> (r: Self)
        ensures
            r.working_dir@ == working_dir@,
            r.docker_image is None,
            r.mount_binds@.len() == 0,
            r.network_enabled,
    {
        Shell { working_dir: working_dir.to_owned(), docker_image: None, mount_binds: Vec::new(), network_enabled: true }
    }

    /// Runs inside `image`.
    pub fn with_image(self, image: &str) -> (r: Self)
        ensures
            r.working_dir == self.working_dir,
            r.docker_image matches Some(i) && i@ == image@,
            r.mount_binds == self.mount_binds,
            r.network_enabled == self.network_enabled,
    {
        Shell { docker_image: Some(image.to_owned()), ..self }
    }

    /// Mounts `host_path` at `container_path` in the container.
    pub fn with_mount(self, host_path: &str, container_path: &str) -> (r: Self)
        ensures
            r.working_dir == self.working_dir,
            r.docker_image == self.docker_image,
            r.mount_binds@.len() == self.mount_binds@.len() + 1,
            r.mount_binds@.drop_last() == self.mount_binds@,
            r.mount_binds@.last()@ == host_path@ + seq![':'] + container_path@,
            r.network_enabled == self.network_enabled,
    {
        let mut s = self;
        let mut bind = host_path.to_owned();
        proof {
            reveal_strlit(":");
        }
        bind.append(":");
        bind.append(container_path);
        let ghost before = s.mount_binds@;
        s.mount_binds.push(bind);
        proof {
            assert(s.mount_binds@.drop_last() =~= before);
        }
        s
    }

    /// Turns the container's network on or off.
    pub fn with_network(self, enabled: bool) -> (r: Self)
        ensures
            r.working_dir == self.working_dir,
            r.docker_image == self.docker_image,
            r.mount_binds == self.mount_binds,
            r.network_enabled == enabled,
    {
        Shell { network_enabled: enabled, ..self }
    }

    /// The program and arguments that run `command`.
    pub open spec fn invocation(&self, command: Seq<char>) -> (Seq<char>, Seq<Seq<char>>) {
        match self.docker_image {
            None => ("bash"@, seq!["-c"@, command]),
            Some(image) => {
                let wd = self.working_dir@;
                let net = if self.network_enabled {
                    Seq::empty()
                } else {
                    seq!["--network"@, "none"@]
                };
                let mounts = self.mount_binds@.map_values(|m: String| m@);
                (
                    "docker"@,
                    seq!["run"@, "--rm"@, "-v"@, wd + seq![':'] + wd] + mounts.map_values(
                        |m: Seq<char>| seq!["-v"@, m],
                    ).flatten() + net + seq!["-w"@, wd, image@, "bash"@, "-c"@, command],
                )
            },
        }
    }

    /// The program and arguments that run `command`: `bash -c <command>` in
    /// the working directory, or `docker run --rm -v <wd>:<wd> [-v
    /// <mount>...] [--network none] -w <wd> <image> bash -c <command>`.
    pub fn command_line(&self, command: &str) -> (r: (String, Vec<String>))
        ensures
            (r.0@, r.1@.map_values(|a: String| a@)) == self.invocation(command@),
    {
        match &self.docker_image {
            None => {
                let mut args: Vec<String> = Vec::new();
                args.push("-c".to_owned());
                args.push(command.to_owned());
                proof {
                    assert(args@.map_values(|a: String| a@) =~= seq!["-c"@, command@]);
                }
                ("bash".to_owned(), args)
            },
            Some(image) => {
                let ghost wd = self.working_dir@;
                let mut args: Vec<String> = Vec::new();
                args.push("run".to_owned());
                args.push("--rm".to_owned());
                let ghost net = if self.network_enabled {
                    Seq::<Seq<char>>::empty()
                } else {
                    seq!["--network"@, "none"@]
                };
                args.push("-v".to_owned());
                let mut own = self.working_dir.clone();
                proof {
                    reveal_strlit(":");
                }
                own.append(":");
                own.append(self.working_dir.as_str());
                proof {
                    assert(":"@ =~= seq![':']);
                    assert(own@ =~= wd + seq![':'] + wd);
                }
                let ghost a2 = args@;
                args.push(own);
                proof {
                    assert(args@ == a2.push(own));
                }
                let ghost head = seq!["run"@, "--rm"@, "-v"@, wd + seq![':'] + wd];
                proof {
                    assert(args@.map_values(|a: String| a@) =~= head);
                }
                let ghost mounts = self.mount_binds@.map_values(|m: String| m@);
                let ghost pieces = mounts.map_values(|m: Seq<char>| seq!["-v"@, m]);
                let mut i: usize = 0;
                proof {
                    assert(pieces.subrange(0, 0).flatten() =~= Seq::<Seq<char>>::empty());
                    assert(head =~= head + pieces.subrange(0, 0).flatten());
                }
                while i < self.mount_binds.len()
                    invariant
                        i <= self.mount_binds@.len(),
                        mounts == self.mount_binds@.map_values(|m: String| m@),
                        pieces == mounts.map_values(|m: Seq<char>| seq!["-v"@, m]),
                        args@.map_values(|a: String| a@) == head + pieces.subrange(0, i as int).flatten(),
                    decreases self.mount_binds@.len() - i,
                {
                    let ghost before = args@.map_values(|a: String| a@);
                    args.push("-v".to_owned());
                    args.push(self.mount_binds[i].clone());
                    proof {
                        let t = pieces.subrange(0, i as int + 1);
                        assert(t.drop_last() =~= pieces.subrange(0, i as int));
                        t.drop_last().lemma_flatten_push(t.last());
                        assert(t =~= t.drop_last().push(t.last()));
                        assert(args@.map_values(|a: String| a@) =~= before + seq!["-v"@, mounts[i as int]]);
                    }
                    i = i + 1;
                }
                proof {
                    assert(pieces.subrange(0, self.mount_binds@.len() as int) =~= pieces);
                }
                let ghost a3 = args@.map_values(|a: String| a@);
                if !self.network_enabled {
                    args.push("--network".to_owned());
                    args.push("none".to_owned());
                }
                proof {
                    assert(args@.map_values(|a: String| a@) =~= a3 + net);
                }
                args.push("-w".to_owned());
                args.push(self.working_dir.clone());
                args.push(image.clone());
                args.push("bash".to_owned());
                args.push("-c".to_owned());
                args.push(command.to_owned());
                proof {
                    assert(pieces.subrange(0, self.mount_binds@.len() as int) =~= pieces);
                    assert(args@.map_values(|a: String| a@) =~= head + pieces.flatten() + net + seq!["-w"@, wd, image@, "bash"@, "-c"@, command@]);
                }
                ("docker".to_owned(), args)
            },
        }
    }
}

} // verus!

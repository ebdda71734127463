//! Several services in one process: which are started, and with which options.
use vstd::prelude::*;
use vstd::string::*;

verus! {

/// The options of the process. A service whose options are missing is not started.
#[derive(Debug, PartialEq, Eq, PartialOrd)]
pub struct StandaloneOpts {
    pub compute_opts: Option<String>,
    pub meta_opts: Option<String>,
    pub frontend_opts: Option<String>,
    pub compactor_opts: Option<String>,
    /// Overrides that of every service.
    pub prometheus_listener_addr: Option<String>,
    /// Overrides that of every service.
    pub config_path: Option<String>,
}

/// The characters of a text that may be missing.
pub open spec fn text_of(text: Option<String>) -> Option<Seq<char>> {
    match text {
        Some(t) => Some(t@),
        None => None,
    }
}

/// Copies a text that may be missing.
fn copy_text(text: &Option<String>) -> (res: Option<String>)
    ensures
        text_of(res) == text_of(*text),
{
    match text {
        Some(t) => Some(t.clone()),
        None => None,
    }
}

impl Clone for StandaloneOpts {
    fn clone(&self) -> (res: StandaloneOpts)
        ensures
            text_of(res.compute_opts) == text_of(self.compute_opts),
            text_of(res.meta_opts) == text_of(self.meta_opts),
            text_of(res.frontend_opts) == text_of(self.frontend_opts),
            text_of(res.compactor_opts) == text_of(self.compactor_opts),
            text_of(res.prometheus_listener_addr) == text_of(self.prometheus_listener_addr),
            text_of(res.config_path) == text_of(self.config_path),
    {
        StandaloneOpts {
            compute_opts: copy_text(&self.compute_opts),
            meta_opts: copy_text(&self.meta_opts),
            frontend_opts: copy_text(&self.frontend_opts),
            compactor_opts: copy_text(&self.compactor_opts),
            prometheus_listener_addr: copy_text(&self.prometheus_listener_addr),
            config_path: copy_text(&self.config_path),
        }
    }
}

/// A service.
#[derive(Clone, Copy, Debug, PartialEq, Eq, Structural)]
pub enum Service {
    Meta,
    Compute,
    Frontend,
    Compactor,
}

/// The words that a shell makes of a line; none if a quote is not closed.
pub uninterp spec fn shell_words_of(line: Seq<char>) -> Option<Seq<Seq<char>>>;

/// The characters of each word.
pub open spec fn texts(words: Seq<String>) -> Seq<Seq<char>> {
    Seq::new(words.len(), |i: int| words[i]@)
}

/// Calls `shell_words::split`, which splits a line into words as a shell does, with no expansion but the
/// removal of quotes. It fails where a quote is not closed. The result depends on the line alone.
#[verifier::external_body]
fn split_words(line: &str) -> (res: Option<Vec<String>>)
    ensures
        match res {
            Some(words) => shell_words_of(line@) == Some(texts(words@)),
            None => shell_words_of(line@) is None,
        },
{
    shell_words::split(line).ok()
}

/// The name under which a service is started.
pub open spec fn program_name(service: Service) -> Seq<char> {
    match service {
        Service::Meta => "meta-node"@,
        Service::Compute => "compute-node"@,
        Service::Frontend => "frontend-node"@,
        Service::Compactor => "compactor-node"@,
    }
}

impl Service {
    /// The name under which the service is started.
    pub fn program(self) -> (res: &'static str)
        ensures
            res@ == program_name(self),
    {
        match self {
            Service::Meta => "meta-node",
            Service::Compute => "compute-node",
            Service::Frontend => "frontend-node",
            Service::Compactor => "compactor-node",
        }
    }

    /// The arguments of the service: its name, and then the given words.
    pub fn node_args(self, words: Vec<String>) -> (res: Vec<String>)
        requires
            words@.len() < usize::MAX,
        ensures
            texts(res@) == seq![program_name(self)] + texts(words@),
    {
        let mut args = words;
        args.insert(0, self.program().to_owned());
        assert(texts(args@) =~= seq![program_name(self)] + texts(words@));
        args
    }
}

/// Why the services cannot be started.
#[derive(Clone, Copy, Debug, PartialEq, Eq, Structural)]
pub enum StandaloneError {
    /// The options of the service are not quoted well.
    BadQuoting(Service),
    /// No service is to be started.
    NoService,
    /// The options of the service have more words than can be counted.
    TooManyWords(Service),
}

/// The arguments of each service that is started.
#[derive(Debug)]
pub struct StandaloneArgs {
    pub meta: Option<Vec<String>>,
    pub compute: Option<Vec<String>>,
    pub frontend: Option<Vec<String>>,
    pub compactor: Option<Vec<String>>,
}

/// The arguments are those that the options of the service give.
pub open spec fn are_args(service: Service, opts: Option<String>, args: Option<Vec<String>>) -> bool {
    match opts {
        None => args is None,
        Some(line) => match shell_words_of(line@) {
            Some(words) => args matches Some(a) && texts(a@) == seq![program_name(service)] + words,
            None => false,
        },
    }
}

/// The options of the service are not quoted well.
pub open spec fn badly_quoted(opts: Option<String>) -> bool {
    opts matches Some(line) && shell_words_of(line@) is None
}

/// The options of the service have more words than fit beside its name.
pub open spec fn too_many_words(opts: Option<String>) -> bool {
    opts matches Some(line) && (shell_words_of(line@) matches Some(words) && words.len()
        >= usize::MAX)
}

/// What is wrong with the options of a service.
pub open spec fn flaw(service: Service, opts: Option<String>) -> Option<StandaloneError> {
    if badly_quoted(opts) {
        Some(StandaloneError::BadQuoting(service))
    } else if too_many_words(opts) {
        Some(StandaloneError::TooManyWords(service))
    } else {
        None
    }
}

/// What is wrong with the options of the services, which are looked at in the order meta, compute, frontend
/// and compactor; that none is to be started is found last.
pub open spec fn first_flaw(opts: StandaloneOpts) -> Option<StandaloneError> {
    if flaw(Service::Meta, opts.meta_opts) is Some {
        flaw(Service::Meta, opts.meta_opts)
    } else if flaw(Service::Compute, opts.compute_opts) is Some {
        flaw(Service::Compute, opts.compute_opts)
    } else if flaw(Service::Frontend, opts.frontend_opts) is Some {
        flaw(Service::Frontend, opts.frontend_opts)
    } else if flaw(Service::Compactor, opts.compactor_opts) is Some {
        flaw(Service::Compactor, opts.compactor_opts)
    } else if opts.meta_opts is None && opts.compute_opts is None && opts.frontend_opts is None
        && opts.compactor_opts is None {
        Some(StandaloneError::NoService)
    } else {
        None
    }
}

/// The arguments of one service.
fn service_args(service: Service, opts: &Option<String>) -> (res: Result<
    Option<Vec<String>>,
    StandaloneError,
>)
    ensures
        match res {
            Ok(args) => flaw(service, *opts) is None && are_args(service, *opts, args),
            Err(e) => flaw(service, *opts) == Some(e),
        },
{
    match opts {
        None => Ok(None),
        Some(line) => match split_words(line.as_str()) {
            None => Err(StandaloneError::BadQuoting(service)),
            Some(words) => {
                assert(texts(words@).len() == words@.len());
                if words.len() == usize::MAX {
                    Err(StandaloneError::TooManyWords(service))
                } else {
                    Ok(Some(service.node_args(words)))
                }
            },
        },
    }
}

/// The arguments of each service that is started.
pub fn standalone_args(opts: &StandaloneOpts) -> (res: Result<StandaloneArgs, StandaloneError>)
    ensures
        match res {
            Ok(args) => first_flaw(*opts) is None && are_args(Service::Meta, opts.meta_opts, args.meta)
                && are_args(Service::Compute, opts.compute_opts, args.compute) && are_args(
                Service::Frontend,
                opts.frontend_opts,
                args.frontend,
            ) && are_args(Service::Compactor, opts.compactor_opts, args.compactor),
            Err(e) => first_flaw(*opts) == Some(e),
        },
{
    let meta = match service_args(Service::Meta, &opts.meta_opts) {
        Ok(args) => args,
        Err(e) => {
            return Err(e);
        },
    };
    let compute = match service_args(Service::Compute, &opts.compute_opts) {
        Ok(args) => args,
        Err(e) => {
            return Err(e);
        },
    };
    let frontend = match service_args(Service::Frontend, &opts.frontend_opts) {
        Ok(args) => args,
        Err(e) => {
            return Err(e);
        },
    };
    let compactor = match service_args(Service::Compactor, &opts.compactor_opts) {
        Ok(args) => args,
        Err(e) => {
            return Err(e);
        },
    };
    if opts.meta_opts.is_none() && opts.compute_opts.is_none() && opts.frontend_opts.is_none()
        && opts.compactor_opts.is_none() {
        return Err(StandaloneError::NoService);
    }
    Ok(StandaloneArgs { meta, compute, frontend, compactor })
}

/// The options of a service that the process looks at.
#[derive(Debug)]
pub struct ServiceOpts {
    pub listen_addr: String,
    pub config_path: String,
    pub prometheus_listener_addr: Option<String>,
    pub meta_addr: String,
}

/// The options of the services that are started.
#[derive(Debug)]
pub struct ParsedStandaloneOpts {
    pub meta_opts: Option<ServiceOpts>,
    pub compute_opts: Option<ServiceOpts>,
    pub frontend_opts: Option<ServiceOpts>,
    pub compactor_opts: Option<ServiceOpts>,
}

/// The options after those of the whole process took the place of the service's own.
pub open spec fn overridden(before: ServiceOpts, opts: StandaloneOpts, after: ServiceOpts) -> bool {
    &&& after.listen_addr == before.listen_addr
    &&& after.meta_addr == before.meta_addr
    &&& match opts.config_path {
        Some(path) => after.config_path@ == path@,
        None => after.config_path == before.config_path,
    }
    &&& match opts.prometheus_listener_addr {
        Some(addr) => after.prometheus_listener_addr matches Some(a) && a@ == addr@,
        None => after.prometheus_listener_addr == before.prometheus_listener_addr,
    }
}

/// The same for a service that may not be started.
pub open spec fn overridden_if_any(
    before: Option<ServiceOpts>,
    opts: StandaloneOpts,
    after: Option<ServiceOpts>,
) -> bool {
    match before {
        None => after is None,
        Some(b) => after matches Some(a) && overridden(b, opts, a),
    }
}

/// Overrides the options of one service.
fn override_opts(service: Option<ServiceOpts>, opts: &StandaloneOpts) -> (res: Option<ServiceOpts>)
    ensures
        overridden_if_any(service, *opts, res),
{
    match service {
        None => None,
        Some(s) => {
            let config_path = match &opts.config_path {
                Some(path) => path.clone(),
                None => s.config_path,
            };
            let prometheus_listener_addr = match &opts.prometheus_listener_addr {
                Some(addr) => Some(addr.clone()),
                None => s.prometheus_listener_addr,
            };
            Some(
                ServiceOpts {
                    listen_addr: s.listen_addr,
                    config_path,
                    prometheus_listener_addr,
                    meta_addr: s.meta_addr,
                },
            )
        },
    }
}

/// The options of the services, after their arguments were read: those of the whole process override them.
/// None if no service is to be started.
pub fn parse_standalone_opt_args(opts: &StandaloneOpts, parsed: ParsedStandaloneOpts) -> (res: Option<
    ParsedStandaloneOpts,
>)
    ensures
        res is None <==> parsed.meta_opts is None && parsed.compute_opts is None
            && parsed.frontend_opts is None && parsed.compactor_opts is None,
        res matches Some(r) ==> overridden_if_any(parsed.meta_opts, *opts, r.meta_opts)
            && overridden_if_any(parsed.compute_opts, *opts, r.compute_opts) && overridden_if_any(
            parsed.frontend_opts,
            *opts,
            r.frontend_opts,
        ) && overridden_if_any(parsed.compactor_opts, *opts, r.compactor_opts),
{
    if parsed.meta_opts.is_none() && parsed.compute_opts.is_none() && parsed.frontend_opts.is_none()
        && parsed.compactor_opts.is_none() {
        return None;
    }
    Some(
        ParsedStandaloneOpts {
            meta_opts: override_opts(parsed.meta_opts, opts),
            compute_opts: override_opts(parsed.compute_opts, opts),
            frontend_opts: override_opts(parsed.frontend_opts, opts),
            compactor_opts: override_opts(parsed.compactor_opts, opts),
        },
    )
}

impl ParsedStandaloneOpts {
    /// Some service is started.
    pub open spec fn any(&self) -> bool {
        self.meta_opts is Some || self.compute_opts is Some || self.frontend_opts is Some
            || self.compactor_opts is Some
    }

    /// The service whose options say where the meta service is.
    pub open spec fn leader(&self) -> ServiceOpts {
        match self.meta_opts {
            Some(o) => o,
            None => match self.compute_opts {
                Some(o) => o,
                None => match self.frontend_opts {
                    Some(o) => o,
                    None => self.compactor_opts->Some_0,
                },
            },
        }
    }

    /// The name of this way of starting.
    pub fn name() -> (res: &'static str)
        ensures
            res@ == "standalone"@,
    {
        "standalone"
    }

    /// Where the meta service is.
    pub fn meta_addr(&self) -> (res: &String)
        requires
            self.any(),
        ensures
            *res == self.leader().meta_addr,
    {
        if let Some(opts) = &self.meta_opts {
            &opts.meta_addr
        } else if let Some(opts) = &self.compute_opts {
            &opts.meta_addr
        } else if let Some(opts) = &self.frontend_opts {
            &opts.meta_addr
        } else {
            &self.compactor_opts.as_ref().unwrap().meta_addr
        }
    }

    /// The services in the order in which they are started.
    pub open spec fn started(&self) -> Seq<Service> {
        (if self.meta_opts is Some {
            seq![Service::Meta]
        } else {
            seq![]
        }) + (if self.compute_opts is Some {
            seq![Service::Compute]
        } else {
            seq![]
        }) + (if self.frontend_opts is Some {
            seq![Service::Frontend]
        } else {
            seq![]
        }) + (if self.compactor_opts is Some {
            seq![Service::Compactor]
        } else {
            seq![]
        })
    }

    /// The services in the order in which they are started.
    pub fn services(&self) -> (res: Vec<Service>)
        ensures
            res@ == self.started(),
    {
        let mut res: Vec<Service> = Vec::new();
        if self.meta_opts.is_some() {
            res.push(Service::Meta);
        }
        if self.compute_opts.is_some() {
            res.push(Service::Compute);
        }
        if self.frontend_opts.is_some() {
            res.push(Service::Frontend);
        }
        if self.compactor_opts.is_some() {
            res.push(Service::Compactor);
        }
        assert(res@ =~= self.started());
        res
    }
}

/// What to do while the meta service is not ready.
#[derive(Clone, Copy, Debug, PartialEq, Eq, Structural)]
pub enum ReadyStep {
    /// It is ready.
    Ready,
    /// Wait a little, after saying so or not.
    Wait { say: bool },
}

/// How often the process has looked whether the meta service is ready.
#[derive(Clone, Copy, Debug, PartialEq, Eq, Structural)]
pub struct ReadyWait {
    pub tries: u32,
}

impl ReadyWait {
    /// The process has not looked yet.
    pub fn new() -> (res: ReadyWait)
        ensures
            res.tries == 0,
    {
        ReadyWait { tries: 0 }
    }

    /// The next step. Every fiftieth time the process says that it waits.
    pub fn step(&mut self, started: bool) -> (res: ReadyStep)
        requires
            old(self).tries < u32::MAX,
        ensures
            started ==> res == ReadyStep::Ready && final(self).tries == old(self).tries,
            !started ==> res == (ReadyStep::Wait { say: old(self).tries % 50 == 0 }) && final(self).tries == old(self).tries + 1,
    {
        if started {
            return ReadyStep::Ready;
        }
        let say: bool = self.tries % 50 == 0;
        self.tries = self.tries + 1;
        ReadyStep::Wait { say }
    }
}

/// The place of the first colon, or the end.
pub open spec fn first_colon(text: Seq<char>) -> int
    decreases text.len(),
{
    if text.len() == 0 || text[0] == ':' {
        0
    } else {
        1 + first_colon(text.skip(1))
    }
}

/// The place after the last colon, or the start.
pub open spec fn after_last_colon(text: Seq<char>) -> int
    decreases text.len(),
{
    if text.len() == 0 || text.last() == ':' {
        text.len() as int
    } else {
        after_last_colon(text.drop_last())
    }
}

/// The host and the port of an address: what stands before the first colon, and what stands after the last.
pub fn host_and_port(listen_addr: &String) -> (res: (String, String))
    ensures
        res.0@ == listen_addr@.take(first_colon(listen_addr@)),
        res.1@ == listen_addr@.skip(after_last_colon(listen_addr@)),
{
    let text = listen_addr.as_str();
    let len: usize = text.unicode_len();
    let ghost s = listen_addr@;
    let mut head: usize = 0;
    assert(s.skip(0) =~= s);
    while head < len && text.get_char(head) != ':'
        invariant
            head <= len,
            len == s.len(),
            s == text@,
            first_colon(s) == head + first_colon(s.skip(head as int)),
        decreases len - head,
    {
        assert(s.skip(head as int).skip(1) =~= s.skip(head + 1));
        assert(s.skip(head as int)[0] == s[head as int]);
        head = head + 1;
    }
    proof {
        if head < len {
            assert(s.skip(head as int)[0] == s[head as int]);
        }
        assert(first_colon(s) == head);
    }
    let mut tail: usize = len;
    assert(s.take(len as int) =~= s);
    while tail > 0 && text.get_char(tail - 1) != ':'
        invariant
            tail <= len,
            len == s.len(),
            s == text@,
            after_last_colon(s) == after_last_colon(s.take(tail as int)),
        decreases tail,
    {
        assert(s.take(tail as int).drop_last() =~= s.take(tail - 1));
        assert(s.take(tail as int).last() == s[tail - 1]);
        tail = tail - 1;
    }
    proof {
        if tail > 0 {
            assert(s.take(tail as int).last() == s[tail - 1]);
        }
        assert(after_last_colon(s) == tail);
    }
    let host = text.substring_char(0, head).to_owned();
    let port = text.substring_char(tail, len).to_owned();
    assert(s.subrange(0, head as int) =~= s.take(head as int));
    assert(s.subrange(tail as int, len as int) =~= s.skip(tail as int));
    (host, port)
}

} // verus!

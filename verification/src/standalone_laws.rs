//! Starting all services in one process gives each its own options and no other's.
use crate::standalone::{
    after_last_colon, first_colon, first_flaw, host_and_port, parse_standalone_opt_args,
    shell_words_of, standalone_args, texts, ParsedStandaloneOpts, ReadyStep, ReadyWait, Service,
    ServiceOpts, StandaloneArgs, StandaloneError, StandaloneOpts,
};
use vstd::prelude::*;

verus! {

/// The options of the service.
pub open spec fn opts_of(opts: StandaloneOpts, service: Service) -> Option<String> {
    match service {
        Service::Meta => opts.meta_opts,
        Service::Compute => opts.compute_opts,
        Service::Frontend => opts.frontend_opts,
        Service::Compactor => opts.compactor_opts,
    }
}

/// The arguments of the service.
pub open spec fn args_of(args: StandaloneArgs, service: Service) -> Option<Vec<String>> {
    match service {
        Service::Meta => args.meta,
        Service::Compute => args.compute,
        Service::Frontend => args.frontend,
        Service::Compactor => args.compactor,
    }
}

/// The options of the service, once they are read.
pub open spec fn parsed_of(parsed: ParsedStandaloneOpts, service: Service) -> Option<ServiceOpts> {
    match service {
        Service::Meta => parsed.meta_opts,
        Service::Compute => parsed.compute_opts,
        Service::Frontend => parsed.frontend_opts,
        Service::Compactor => parsed.compactor_opts,
    }
}

/// A service has arguments if and only if it has options. They are the name of its program and the words of its
/// options in their order.
pub proof fn lemma_own_words(
    opts: &StandaloneOpts,
    res: Result<StandaloneArgs, StandaloneError>,
    service: Service,
    i: int,
)
    requires
        call_ensures(standalone_args, (opts,), res),
    ensures
        res matches Ok(args) ==> {
            &&& opts_of(*opts, service) is Some <==> args_of(args, service) is Some
            &&& opts_of(*opts, service) matches Some(line) ==> {
                &&& shell_words_of(line@) is Some
                &&& args_of(args, service) matches Some(words) && {
                    &&& words@.len() == shell_words_of(line@)->Some_0.len() + 1
                    &&& words@[0]@ == (match service {
                        Service::Meta => "meta-node"@,
                        Service::Compute => "compute-node"@,
                        Service::Frontend => "frontend-node"@,
                        Service::Compactor => "compactor-node"@,
                    })
                    &&& 0 <= i < shell_words_of(line@)->Some_0.len() ==> words@[i + 1]@
                        == shell_words_of(line@)->Some_0[i]
                }
            }
        },
        (res matches Err(StandaloneError::NoService)) <==> opts.meta_opts is None
            && opts.compute_opts is None && opts.frontend_opts is None && opts.compactor_opts is None,
        res matches Err(StandaloneError::BadQuoting(s)) ==> (opts_of(*opts, s) matches Some(line)
            && shell_words_of(line@) is None),
        res matches Err(StandaloneError::TooManyWords(s)) ==> (opts_of(*opts, s) matches Some(line)
            && (shell_words_of(line@) matches Some(words) && words.len() >= usize::MAX)),
{
    match res {
        Ok(args) => {
            if opts_of(*opts, service) is Some {
                let words = args_of(args, service)->Some_0;
                let line = opts_of(*opts, service)->Some_0;
                let split = shell_words_of(line@)->Some_0;
                assert(texts(words@).len() == words@.len());
                assert(texts(words@)[0] == words@[0]@);
                if 0 <= i < split.len() {
                    assert(texts(words@)[i + 1] == words@[i + 1]@);
                }
            }
        },
        Err(_) => {
            assert(first_flaw(*opts) is Some);
        },
    }
}

/// The path and the address that the process is given are those of every service; without them each keeps its own.
/// Where it listens and where the meta service is stay its own in any case.
pub proof fn lemma_process_overrides(
    opts: &StandaloneOpts,
    parsed: ParsedStandaloneOpts,
    res: Option<ParsedStandaloneOpts>,
    service: Service,
)
    requires
        call_ensures(parse_standalone_opt_args, (opts, parsed), res),
    ensures
        res is None <==> forall|s: Service| (#[trigger] parsed_of(parsed, s)) is None,
        res matches Some(after) ==> match (parsed_of(parsed, service), parsed_of(after, service)) {
            (None, None) => true,
            (Some(a), Some(b)) => {
                &&& b.listen_addr == a.listen_addr && b.meta_addr == a.meta_addr
                &&& b.config_path@ == (match opts.config_path {
                    Some(path) => path@,
                    None => a.config_path@,
                })
                &&& opts.prometheus_listener_addr matches Some(addr) ==> (
                b.prometheus_listener_addr matches Some(x) && x@ == addr@)
                &&& opts.prometheus_listener_addr is None ==> b.prometheus_listener_addr
                    == a.prometheus_listener_addr
            },
            _ => false,
        },
{
    if forall|s: Service| (#[trigger] parsed_of(parsed, s)) is None {
        assert(parsed_of(parsed, Service::Meta) is None);
        assert(parsed_of(parsed, Service::Compute) is None);
        assert(parsed_of(parsed, Service::Frontend) is None);
        assert(parsed_of(parsed, Service::Compactor) is None);
    }
}

/// The place of the service in the order of starting.
pub open spec fn turn(service: Service) -> int {
    match service {
        Service::Meta => 0,
        Service::Compute => 1,
        Service::Frontend => 2,
        Service::Compactor => 3,
    }
}

/// A service is started if and only if it has options, and once; meta comes before compute, compute before the
/// frontend, and the frontend before the compactor.
pub proof fn lemma_started_in_turn(
    parsed: &ParsedStandaloneOpts,
    res: Vec<Service>,
    service: Service,
    i: int,
    j: int,
)
    requires
        call_ensures(ParsedStandaloneOpts::services, (parsed,), res),
    ensures
        res@.contains(service) <==> parsed_of(*parsed, service) is Some,
        0 <= i < j < res@.len() ==> turn(res@[i]) < turn(res@[j]),
{
    let m = if parsed.meta_opts is Some {
        1int
    } else {
        0
    };
    let c = if parsed.compute_opts is Some {
        m + 1
    } else {
        m
    };
    let f = if parsed.frontend_opts is Some {
        c + 1
    } else {
        c
    };
    if parsed_of(*parsed, service) is Some {
        match service {
            Service::Meta => {
                assert(res@[0] == service);
            },
            Service::Compute => {
                assert(res@[m] == service);
            },
            Service::Frontend => {
                assert(res@[c] == service);
            },
            Service::Compactor => {
                assert(res@[f] == service);
            },
        }
    }
}

/// Where the meta service is, is told by the first service in the order of starting.
pub proof fn lemma_first_tells_address(
    parsed: &ParsedStandaloneOpts,
    addr: &String,
    services: Vec<Service>,
)
    requires
        parsed.any(),
        call_ensures(ParsedStandaloneOpts::meta_addr, (parsed,), addr),
        call_ensures(ParsedStandaloneOpts::services, (parsed,), services),
    ensures
        services@.len() > 0,
        parsed_of(*parsed, services@[0]) matches Some(o) && o.meta_addr@ == addr@,
{
}

/// The process looks until the meta service is ready; it says that it waits at the first look and at every fiftieth
/// after it.
pub proof fn lemma_says_now_and_again(
    first: ReadyWait,
    wait: &mut ReadyWait,
    started: bool,
    step: ReadyStep,
)
    requires
        call_ensures(ReadyWait::new, (), first),
        call_ensures(ReadyWait::step, (wait, started), step),
    ensures
        started <==> step == ReadyStep::Ready,
        !started ==> step == (ReadyStep::Wait { say: exists|k: int| old(wait).tries == first.tries + #[trigger] (50 * k) }),
        !started ==> final(wait).tries == old(wait).tries + 1,
{
    if !started {
        let t = old(wait).tries as int;
        if t % 50 == 0 {
            assert(t == 0 + 50 * (t / 50));
        }
        assert forall|k: int| t == first.tries + #[trigger] (50 * k) implies t % 50 == 0 by {}
    }
}

/// The host has no colon and stands at the start, and the port has none and stands at the end. A text of one colon
/// is the host, the colon and the port; a text without one is both.
pub proof fn lemma_host_and_port(addr: &String, res: (String, String), i: int)
    requires
        call_ensures(host_and_port, (addr,), res),
    ensures
        res.0@.len() <= addr@.len() && res.1@.len() <= addr@.len(),
        0 <= i < res.0@.len() ==> res.0@[i] == addr@[i] && addr@[i] != ':',
        res.0@.len() < addr@.len() ==> addr@[res.0@.len() as int] == ':',
        0 <= i < res.1@.len() ==> res.1@[i] == addr@[addr@.len() - res.1@.len() + i] && res.1@[i]
            != ':',
        res.1@.len() < addr@.len() ==> addr@[addr@.len() - res.1@.len() - 1] == ':',
{
    lemma_first_colon(addr@);
    lemma_after_last_colon(addr@);
}

proof fn lemma_first_colon(text: Seq<char>)
    ensures
        0 <= first_colon(text) <= text.len(),
        forall|i: int| 0 <= i < first_colon(text) ==> #[trigger] text[i] != ':',
        first_colon(text) < text.len() ==> text[first_colon(text)] == ':',
    decreases text.len(),
{
    if text.len() > 0 && text[0] != ':' {
        let rest = text.skip(1);
        lemma_first_colon(rest);
        assert forall|i: int| 0 <= i < first_colon(text) implies #[trigger] text[i] != ':' by {
            if i > 0 {
                assert(rest[i - 1] == text[i]);
            }
        }
        if first_colon(text) < text.len() {
            assert(rest[first_colon(rest)] == text[first_colon(text)]);
        }
    }
}

proof fn lemma_after_last_colon(text: Seq<char>)
    ensures
        0 <= after_last_colon(text) <= text.len(),
        forall|i: int| after_last_colon(text) <= i < text.len() ==> #[trigger] text[i] != ':',
        after_last_colon(text) > 0 ==> text[after_last_colon(text) - 1] == ':',
    decreases text.len(),
{
    if text.len() > 0 && text.last() != ':' {
        let rest = text.drop_last();
        lemma_after_last_colon(rest);
        assert forall|i: int| after_last_colon(text) <= i < text.len() implies #[trigger] text[i]
            != ':' by {
            if i < rest.len() {
                assert(rest[i] == text[i]);
            }
        }
    }
}

} // verus!

use risingwave_core::standalone::{
    host_and_port, parse_standalone_opt_args, standalone_args, ParsedStandaloneOpts, ReadyStep,
    ReadyWait, Service, ServiceOpts, StandaloneError, StandaloneOpts,
};

fn no_opts() -> StandaloneOpts {
    StandaloneOpts {
        compute_opts: None,
        meta_opts: None,
        frontend_opts: None,
        compactor_opts: None,
        prometheus_listener_addr: None,
        config_path: None,
    }
}

fn service(listen_addr: &str, config_path: &str, prometheus: Option<&str>) -> ServiceOpts {
    ServiceOpts {
        listen_addr: listen_addr.to_string(),
        config_path: config_path.to_string(),
        prometheus_listener_addr: prometheus.map(|p| p.to_string()),
        meta_addr: "http://127.0.0.1:5690".to_string(),
    }
}

#[test]
fn test_parse_opt_args() {
    let opts = StandaloneOpts {
        compute_opts: Some("--listen-addr 127.0.0.1:8000 --total-memory-bytes 34359738368 --parallelism 10".into()),
        meta_opts: Some("--advertise-addr 127.0.0.1:9999 --data-directory \"some path with spaces\" --listen-addr 127.0.0.1:8001 --etcd-password 1234".into()),
        frontend_opts: Some("--config-path=src/config/original.toml".into()),
        compactor_opts: None,
        prometheus_listener_addr: Some("127.0.0.1:1234".into()),
        config_path: Some("src/config/test.toml".into()),
    };

    let args = standalone_args(&opts).unwrap();
    assert_eq!(
        args.meta.unwrap(),
        vec![
            "meta-node",
            "--advertise-addr",
            "127.0.0.1:9999",
            "--data-directory",
            "some path with spaces",
            "--listen-addr",
            "127.0.0.1:8001",
            "--etcd-password",
            "1234",
        ]
    );
    assert_eq!(
        args.compute.unwrap(),
        vec![
            "compute-node",
            "--listen-addr",
            "127.0.0.1:8000",
            "--total-memory-bytes",
            "34359738368",
            "--parallelism",
            "10",
        ]
    );
    assert_eq!(
        args.frontend.unwrap(),
        vec!["frontend-node", "--config-path=src/config/original.toml"]
    );
    assert!(args.compactor.is_none());

    let parsed = ParsedStandaloneOpts {
        meta_opts: Some(service("127.0.0.1:8001", "", None)),
        compute_opts: Some(service("127.0.0.1:8000", "", Some("127.0.0.1:1222"))),
        frontend_opts: Some(service("0.0.0.0:4566", "src/config/original.toml", Some("127.0.0.1:2222"))),
        compactor_opts: None,
    };
    let actual = parse_standalone_opt_args(&opts, parsed).unwrap();
    let meta = actual.meta_opts.as_ref().unwrap();
    assert_eq!(meta.listen_addr, "127.0.0.1:8001");
    assert_eq!(meta.prometheus_listener_addr.as_deref(), Some("127.0.0.1:1234"));
    assert_eq!(meta.config_path, "src/config/test.toml");
    let compute = actual.compute_opts.as_ref().unwrap();
    assert_eq!(compute.listen_addr, "127.0.0.1:8000");
    assert_eq!(compute.prometheus_listener_addr.as_deref(), Some("127.0.0.1:1234"));
    assert_eq!(compute.config_path, "src/config/test.toml");
    let frontend = actual.frontend_opts.as_ref().unwrap();
    assert_eq!(frontend.listen_addr, "0.0.0.0:4566");
    assert_eq!(frontend.prometheus_listener_addr.as_deref(), Some("127.0.0.1:1234"));
    assert_eq!(frontend.config_path, "src/config/test.toml");
    assert!(actual.compactor_opts.is_none());
    assert_eq!(actual.meta_addr(), "http://127.0.0.1:5690");
    assert_eq!(actual.services(), vec![Service::Meta, Service::Compute, Service::Frontend]);
}

#[test]
fn options_that_are_not_said_stay() {
    let parsed = ParsedStandaloneOpts {
        meta_opts: None,
        compute_opts: None,
        frontend_opts: None,
        compactor_opts: Some(service("a:1", "own.toml", Some("b:2"))),
    };
    let actual = parse_standalone_opt_args(&no_opts(), parsed).unwrap();
    let compactor = actual.compactor_opts.as_ref().unwrap();
    assert_eq!(compactor.config_path, "own.toml");
    assert_eq!(compactor.prometheus_listener_addr.as_deref(), Some("b:2"));
    assert_eq!(ParsedStandaloneOpts::name(), "standalone");
}

#[test]
fn quotes_have_to_be_closed() {
    let mut opts = no_opts();
    opts.frontend_opts = Some("--a 'b".into());
    assert!(matches!(
        standalone_args(&opts),
        Err(StandaloneError::BadQuoting(Service::Frontend))
    ));
    opts.meta_opts = Some("\"".into());
    assert!(matches!(standalone_args(&opts), Err(StandaloneError::BadQuoting(Service::Meta))));
}

#[test]
fn some_service_has_to_be_started() {
    assert!(matches!(standalone_args(&no_opts()), Err(StandaloneError::NoService)));
    let none = ParsedStandaloneOpts {
        meta_opts: None,
        compute_opts: None,
        frontend_opts: None,
        compactor_opts: None,
    };
    assert!(parse_standalone_opt_args(&no_opts(), none).is_none());
}

#[test]
fn waiting_is_said_every_fiftieth_time() {
    let mut wait = ReadyWait::new();
    let said: Vec<u32> = (0..101)
        .filter(|_| matches!(wait.step(false), ReadyStep::Wait { say: true }))
        .collect();
    assert_eq!(said, vec![0, 50, 100]);
    assert_eq!(wait.step(true), ReadyStep::Ready);
}

#[test]
fn addresses_are_taken_apart() {
    let (host, port) = host_and_port(&"0.0.0.0:4566".to_string());
    assert_eq!((host.as_str(), port.as_str()), ("0.0.0.0", "4566"));
    let (host, port) = host_and_port(&"[::1]:80".to_string());
    assert_eq!((host.as_str(), port.as_str()), ("[", "80"));
    let (host, port) = host_and_port(&"plain".to_string());
    assert_eq!((host.as_str(), port.as_str()), ("plain", "plain"));
    let (host, port) = host_and_port(&String::new());
    assert_eq!((host.as_str(), port.as_str()), ("", ""));
}

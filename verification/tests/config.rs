use pg_tps_optimizer::cli::range_min_max;
use pg_tps_optimizer::dsn::Dsn;
use pg_tps_optimizer::dsn::DsnDefaults;
use pg_tps_optimizer::workload::Workload;
use pg_tps_optimizer::workload::WorkloadType;

fn test_defaults() -> DsnDefaults {
    DsnDefaults {
        user: String::from("me"),
        dbname: String::from("there"),
        host: String::from("here"),
        sslmode: String::from("disable"),
        sslcert: String::from("cert"),
        sslkey: String::from("key"),
        sslrootcert: String::from("root"),
        sslcrl: String::from("crl"),
    }
}

#[test]
fn test_dsn_new_renders_sorted() {
    let d = Dsn::new(&test_defaults());
    assert_eq!(
        d.to_string(),
        "dbname=there host=here sslcert=cert sslcrl=crl sslkey=key sslmode=disable sslrootcert=root user=me"
    );
}

#[test]
fn test_dsn_ssl_mode_switches() {
    let mut d = Dsn::new(&test_defaults());
    assert_eq!(d.use_tls(), false);
    assert_eq!(d.verify_hostname(), false);
    d.set_value("sslmode", "verify-full");
    assert_eq!(d.use_tls(), true);
    assert_eq!(d.verify_hostname(), true);
    d.set_value("sslmode", "prefer");
    assert_eq!(d.use_tls(), true);
    assert_eq!(d.verify_hostname(), false);
}

#[test]
fn test_dsn_cleanse_drops_ssl_keys() {
    let mut d = Dsn::new(&test_defaults());
    d.set_value("sslmode", "verify-full");
    let c = d.cleanse();
    assert_eq!(c.to_string(), "dbname=there host=here user=me");
    assert_eq!(c.use_tls(), false);
    // The source of the copy is untouched.
    assert_eq!(d.use_tls(), true);
}

#[test]
fn test_dsn_from_string_overrides_defaults() {
    let d = Dsn::from_string("host=other port=5433 plain", &test_defaults());
    assert_eq!(d.get_value("host", ""), "other");
    assert_eq!(d.get_value("port", ""), "5433");
    assert_eq!(d.get_value("dbname", ""), "there");
    // A piece without `=` is ignored; an unknown key falls back.
    assert_eq!(d.get_value("plain", "fallback"), "fallback");
    // The first `=` splits; the value keeps the rest.
    let e = Dsn::from_string("options=a=b", &test_defaults());
    assert_eq!(e.get_value("options", ""), "a=b");
    // `sslmode` through the parser switches the mode in force.
    let f = Dsn::from_string("sslmode=require", &test_defaults());
    assert_eq!(f.use_tls(), true);
}

#[test]
fn test_dsn_copy_is_deep() {
    let d = Dsn::new(&test_defaults());
    let mut c = d.copy();
    c.set_value("host", "elsewhere");
    assert_eq!(d.get_value("host", ""), "here");
    assert_eq!(c.get_value("host", ""), "elsewhere");
}

#[test]
fn test_workload_as_string() {
    let d = Dsn::new(&test_defaults());
    let w = Workload::new(d.cleanse(), String::from("select 1"), true, false);
    assert_eq!(
        w.as_string(),
        "dsn:dbname=there host=here user=me\ntransactional: true\nprepared: false"
    );
}

#[test]
fn test_workload_types() {
    let defaults = test_defaults();
    let q = String::from("select 1");
    assert!(matches!(
        Workload::new(Dsn::new(&defaults), q.clone(), false, false).w_type(),
        WorkloadType::Default
    ));
    assert!(matches!(
        Workload::new(Dsn::new(&defaults), q.clone(), true, false).w_type(),
        WorkloadType::Transactional
    ));
    assert!(matches!(
        Workload::new(Dsn::new(&defaults), q.clone(), false, true).w_type(),
        WorkloadType::Prepared
    ));
    assert!(matches!(
        Workload::new(Dsn::new(&defaults), q.clone(), true, true).w_type(),
        WorkloadType::PreparedTransactional
    ));
}

#[test]
fn test_workload_statement() {
    let defaults = test_defaults();
    let w = Workload::new(Dsn::new(&defaults), String::new(), false, false);
    assert_eq!(w.statement(), "update pg_tps_optimizer set id=$1 where id=$1");
    let w = Workload::new(Dsn::new(&defaults), String::from("select 1"), false, false);
    assert_eq!(w.statement(), "select 1");
}

#[test]
fn test_range_parsing() {
    assert_eq!(range_min_max(""), (1, 1000));
    assert_eq!(range_min_max("50"), (1, 50));
    assert_eq!(range_min_max("20:200:"), (20, 200));
}

#[test]
fn test_range_parsing_edges() {
    assert_eq!(range_min_max("1:1000"), (1, 1000));
    assert_eq!(range_min_max("a5b7c9"), (5, 9));
    assert_eq!(range_min_max(":"), (1, 1000));
    // A run too large for the count type is ignored, as a failed parse was.
    assert_eq!(range_min_max("99999999999:7"), (1, 7));
}

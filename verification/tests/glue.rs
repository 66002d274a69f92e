use lucky_draw::auth::Args;
use lucky_draw::auth::Authentication;
use lucky_draw::auth::LoginRes;
use lucky_draw::config::Config;
use lucky_draw::config::LogCfg;
use lucky_draw::config::SqliteCfg;
use lucky_draw::config::WebCfg;
use lucky_draw::context::AppSys;
use lucky_draw::context::Module;
use lucky_draw::log_ext::LogMiddleware;

#[test]
fn login_args_carry_the_credentials() {
    let args = Args::new("admin".to_string(), "secret".to_string());
    assert_eq!(args.user_account, "admin");
    assert_eq!(args.password, "secret");
}

#[test]
fn login_reply_carries_the_userid() {
    let res = LoginRes::new(17);
    assert_eq!(res.userid, 17);
}

#[test]
fn authentication_constructs() {
    assert_eq!(Authentication::new(), Authentication);
}

#[test]
fn log_sequence_starts_at_one_and_counts_up() {
    let mut m = LogMiddleware::new();
    assert_eq!(m.seq, 1);
    assert_eq!(m.next_seq(), 1);
    assert_eq!(m.next_seq(), 2);
    assert_eq!(m.next_seq(), 3);
    assert_eq!(m.seq, 4);
}

#[test]
fn log_sequence_wraps_at_the_top() {
    let mut m = LogMiddleware::new();
    m.seq = u64::MAX;
    assert_eq!(m.next_seq(), u64::MAX);
    assert_eq!(m.seq, 0);
}

#[test]
fn config_defaults_match_the_documented_values() {
    let c = Config::default();
    assert_eq!(c.log.directory, "./logs/");
    assert_eq!(c.log.file_name_prefix, "lucky-draw.log");
    assert_eq!(c.log.level, "INFO");
    assert_eq!(c.web.address, "127.0.0.1:1314");
    assert_eq!(c.web.cert, "cert.pem");
    assert_eq!(c.web.key, "key.pem");
    assert_eq!(c.sqlite.path, "sqlite.db");

    assert_eq!(LogCfg::default().level, "INFO");
    assert_eq!(WebCfg::default().address, "127.0.0.1:1314");
    assert_eq!(SqliteCfg::default().path, "sqlite.db");
}

#[test]
fn module_keys_compare_by_variant() {
    assert_eq!(Module::Root, Module::Root);
    assert_ne!(Module::Root, Module::Sys1);
}

#[test]
fn app_sys_defaults_to_welcome() {
    assert_eq!(AppSys::default(), AppSys::Welcome);
    assert_ne!(AppSys::Sys1, AppSys::Sys2);
}

//! Server configuration records and their defaults. Loading and storing
//! the configuration file is I/O and stays outside the library; the
//! defaults that a missing file falls back to are stated here.

use vstd::prelude::*;
use vstd::string::*;

verus! {

/// Where the server writes its log files and at which level.
#[derive(Clone, Debug, PartialEq, Eq)]
pub struct LogCfg {
    pub directory: String,
    pub file_name_prefix: String,
    pub level: String,
}

impl Default for LogCfg {
    fn default() -> (r: Self)
        ensures
            r.directory@ == "./logs/"@,
            r.file_name_prefix@ == "lucky-draw.log"@,
            r.level@ == "INFO"@,
    {
        LogCfg {
            directory: String::from_str("./logs/"),
            file_name_prefix: String::from_str("lucky-draw.log"),
            level: String::from_str("INFO"),
        }
    }
}

/// Where the server listens and which TLS material it presents.
#[derive(Clone, Debug, PartialEq, Eq)]
pub struct WebCfg {
    pub address: String,
    pub cert: String,
    pub key: String,
}

impl Default for WebCfg {
    fn default() -> (r: Self)
        ensures
            r.address@ == "127.0.0.1:1314"@,
            r.cert@ == "cert.pem"@,
            r.key@ == "key.pem"@,
    {
        WebCfg {
            address: String::from_str("127.0.0.1:1314"),
            cert: String::from_str("cert.pem"),
            key: String::from_str("key.pem"),
        }
    }
}

/// Where the embedded database file lives.
#[derive(Clone, Debug, PartialEq, Eq)]
pub struct SqliteCfg {
    pub path: String,
}

impl Default for SqliteCfg {
    fn default() -> (r: Self)
        ensures
            r.path@ == "sqlite.db"@,
    {
        SqliteCfg { path: String::from_str("sqlite.db") }
    }
}

/// The whole server configuration.
#[derive(Clone, Debug, PartialEq, Eq)]
pub struct Config {
    pub log: LogCfg,
    pub web: WebCfg,
    pub sqlite: SqliteCfg,
}

impl Default for Config {
    fn default() -> (r: Self)
        ensures
            r.log.directory@ == "./logs/"@,
            r.log.file_name_prefix@ == "lucky-draw.log"@,
            r.log.level@ == "INFO"@,
            r.web.address@ == "127.0.0.1:1314"@,
            r.web.cert@ == "cert.pem"@,
            r.web.key@ == "key.pem"@,
            r.sqlite.path@ == "sqlite.db"@,
    {
        Config { log: LogCfg::default(), web: WebCfg::default(), sqlite: SqliteCfg::default() }
    }
}

} // verus!

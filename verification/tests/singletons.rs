use snippets::classic::ClassicSingleton;
use snippets::database;
use snippets::database::DatabaseConnection;
use snippets::logger::Logger;
use snippets::settings;
use snippets::settings::ConfigManager;

fn lookup(table: &Vec<(String, String)>, key: &str) -> Option<String> {
    for (k, v) in table {
        if k == key {
            return Some(v.clone());
        }
    }
    None
}

#[test]
fn logger_stamps_and_keeps_entries() {
    let mut logger = Logger::new();
    assert_eq!(logger.get_logs().len(), 0);
    let first = logger.log("Application started");
    assert!(first.ends_with(": Application started"));
    let warned = logger.warn("Resource usage is high");
    assert!(warned.ends_with(": WARNING: Resource usage is high"));
    let errored = logger.error("Failed to connect to service");
    assert!(errored.ends_with(": ERROR: Failed to connect to service"));
    let logs = logger.get_logs();
    assert_eq!(logs.len(), 3);
    assert_eq!(logs[0], first);
    assert_eq!(logs[1], warned);
    assert_eq!(logs[2], errored);
}

#[test]
fn logger_clears() {
    let mut logger = Logger::new();
    logger.log("one");
    logger.log("two");
    assert_eq!(logger.clear_logs(), "Logs cleared");
    assert_eq!(logger.get_logs().len(), 0);
}

#[test]
fn database_connection_reference_counts() {
    let mut db = database::instance();
    assert!(!db.is_connected());
    assert_eq!(db.connection_count(), 0);
    assert!(db.connect("mysql://localhost:3306/mydb"));
    assert!(db.connect("mysql://localhost:3306/mydb"));
    assert_eq!(db.connection_count(), 2);
    assert!(db.disconnect());
    assert!(db.is_connected());
    assert_eq!(db.connection_count(), 1);
    assert!(db.disconnect());
    assert!(!db.is_connected());
    assert_eq!(db.connection_count(), 0);
    assert!(!db.disconnect());
}

#[test]
fn database_fresh_connect_after_release() {
    let mut db = DatabaseConnection::new();
    assert!(db.connect("first"));
    assert!(db.disconnect());
    assert!(db.connect("second"));
    assert!(db.is_connected());
    assert_eq!(db.connection_count(), 1);
}

#[test]
fn config_manager_defaults_and_updates() {
    let mut config = settings::instance();
    let table = config.get_config();
    assert_eq!(table.len(), 4);
    assert_eq!(lookup(&table, "theme").unwrap(), "light");
    assert_eq!(lookup(&table, "language").unwrap(), "en");
    assert_eq!(lookup(&table, "notifications").unwrap(), "true");
    assert_eq!(lookup(&table, "auto_save").unwrap(), "true");

    let updated = config.set_config("theme", "dark");
    assert_eq!(updated.len(), 4);
    assert_eq!(lookup(&updated, "theme").unwrap(), "dark");
    assert_eq!(lookup(&updated, "language").unwrap(), "en");

    let extended = config.set_config("volume", "11");
    assert_eq!(extended.len(), 5);
    assert_eq!(lookup(&extended, "volume").unwrap(), "11");

    let reset = config.reset_config();
    assert_eq!(reset.len(), 4);
    assert_eq!(lookup(&reset, "theme").unwrap(), "light");
    assert!(lookup(&reset, "volume").is_none());
}

#[test]
fn config_manager_new_matches_instance() {
    let a = ConfigManager::new().get_config();
    let b = settings::instance().get_config();
    assert_eq!(a, b);
}

#[test]
fn classic_singleton_configuration() {
    let mut singleton = ClassicSingleton::new();
    let config = singleton.get_config();
    assert_eq!(config.len(), 3);
    assert_eq!(lookup(&config, "api_url").unwrap(), "https://api.example.com");
    assert_eq!(lookup(&config, "timeout").unwrap(), "3000");
    assert_eq!(lookup(&config, "retries").unwrap(), "3");

    singleton.update_config("timeout", "5000");
    let config = singleton.get_config();
    assert_eq!(config.len(), 3);
    assert_eq!(lookup(&config, "timeout").unwrap(), "5000");

    let stamp = singleton.get_timestamp();
    assert_eq!(singleton.get_timestamp(), stamp);
}

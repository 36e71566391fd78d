use fsearch::config::default_config_path;
use fsearch::frecency::{default_history_path, default_queries_path};
use fsearch::index::default_cache_path;
use fsearch::office::cache_dir_for;
use fsearch::sem::default_store_path;
use fsearch::session::default_state_path;

#[test]
fn files_live_below_the_base_directories() {
    let home = Some("/home/me");
    assert_eq!(default_config_path(None, home), "/home/me/.config/fsearch/config.toml");
    assert_eq!(default_config_path(Some("/x"), home), "/x/fsearch/config.toml");
    assert_eq!(default_cache_path(None, None), "/.cache/fsearch/index.bin");
    assert_eq!(default_store_path(None, home), "/home/me/.cache/fsearch/semantic.bin");
    assert_eq!(default_history_path(None, home), "/home/me/.local/state/fsearch/history");
    assert_eq!(default_queries_path(None, home), "/home/me/.local/state/fsearch/queries");
    assert_eq!(default_state_path(Some("/s"), home), "/s/fsearch/session.toml");
    assert_eq!(fsearch::pdf::default_cache_dir(None, home), "/home/me/.cache/fsearch/pdftext");
    assert_eq!(
        fsearch::office::default_cache_dir(None, home),
        "/home/me/.cache/fsearch/officetext"
    );
    assert_eq!(cache_dir_for("/c/pdftext", "/usual"), "/c/officetext");
    assert_eq!(cache_dir_for("/", "/usual"), "/usual");
}

use sandbox_search::sanitize::sanitize_search_query;

#[test]
fn test_sanitize_search_query() {
    assert_eq!(sanitize_search_query("test"), "test");
    assert_eq!(sanitize_search_query("test file"), "test file");

    assert_eq!(sanitize_search_query("test<>file"), "testfile");
    assert_eq!(sanitize_search_query("test|file"), "testfile");
    assert_eq!(sanitize_search_query("test;file"), "testfile");

    assert_eq!(sanitize_search_query("测试文件"), "测试文件");
    assert_eq!(sanitize_search_query("test 中文 file"), "test 中文 file");

    assert_eq!(sanitize_search_query("test_file-v1.0.txt"), "test_file-v1.0.txt");
    assert_eq!(sanitize_search_query("config[prod]"), "config[prod]");

    // dots are on the allow-list, so only the separators are dropped
    assert_eq!(sanitize_search_query("../../../etc/passwd"), "......etcpasswd");
    assert_eq!(sanitize_search_query("rm -rf /"), "rm -rf ");
}

#[test]
fn test_sanitize_search_query_unicode() {
    assert_eq!(sanitize_search_query("café"), "café");
    assert_eq!(sanitize_search_query("🚀 rocket"), " rocket");
    assert_eq!(sanitize_search_query("naïve résumé"), "naïve résumé");

    assert_eq!(sanitize_search_query("hello 世界 world"), "hello 世界 world");
}

#[test]
fn test_sanitize_idempotent_examples() {
    let cases = vec![
        "test<>file",
        "../../../etc/passwd",
        "rm -rf /",
        "🚀 rocket",
        "test 中文 file",
        "",
        "a|b;c&d$e",
    ];
    for raw in cases {
        let once = sanitize_search_query(raw);
        let twice = sanitize_search_query(&once);
        assert_eq!(once, twice);
    }
}

#[test]
fn test_sanitize_drops_path_and_shell_characters() {
    assert_eq!(sanitize_search_query("/\\:*?\"<>|&$`'"), "");
    assert_eq!(sanitize_search_query("a+b=c(d)[e]{f}"), "a+b=c(d)[e]{f}");
}

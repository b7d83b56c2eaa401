use irondb::cluster::ClusterConfig;

#[test]
fn test_cluster_config_hostport() {
    let cfg = ClusterConfig::new("[::1]:10081".to_string());
    assert_eq!(cfg.dflt_server_hostport(), "[::1]:10081");
}

use helix_db::config::{
    default_db_max_size_gb, default_debug_build_mode, default_dev_build_mode,
    default_ef_construction, default_ef_search, default_m, default_queries_path,
    default_release_build_mode, default_true, is_default_graph_config, is_default_vector_config,
    is_true, BuildMode, CloudConfig, DEFAULT_LOCAL_PORT, CloudInstanceConfig, ConfigError, DbConfig, EcrConfig,
    FlyInstanceConfig, GraphConfig, HelixConfig, InstanceInfo, LocalInstanceConfig, ProjectConfig,
    VectorConfig,
};
use helix_db::table::InstanceTable;

fn local(port: Option<u16>, build_mode: BuildMode) -> LocalInstanceConfig {
    LocalInstanceConfig { port, build_mode, db_config: DbConfig::default() }
}

fn helix(cluster: &str) -> CloudConfig {
    CloudConfig::Helix(CloudInstanceConfig {
        cluster_id: cluster.to_string(),
        region: Some("eu".to_string()),
        build_mode: BuildMode::Release,
        db_config: DbConfig::default(),
    })
}

fn fly() -> CloudConfig {
    CloudConfig::FlyIo(FlyInstanceConfig {
        cluster_id: "c-fly".to_string(),
        build_mode: BuildMode::Dev,
        db_config: DbConfig::default(),
    })
}

fn ecr() -> CloudConfig {
    CloudConfig::Ecr(EcrConfig {
        repository_name: "repo".to_string(),
        region: "us-east-1".to_string(),
        registry_url: None,
        build_mode: BuildMode::Debug,
        db_config: DbConfig::default(),
    })
}

fn config(name: &str, locals: &[&str], clouds: &[(&str, CloudConfig)]) -> HelixConfig {
    let mut l = InstanceTable::new();
    for n in locals {
        l.insert(n.to_string(), local(Some(1000), BuildMode::Dev));
    }
    let mut c = InstanceTable::new();
    for (n, cfg) in clouds {
        c.insert(n.to_string(), cfg.clone());
    }
    HelixConfig {
        project: ProjectConfig { name: name.to_string(), queries: default_queries_path() },
        local: l,
        cloud: c,
    }
}

#[test]
fn defaults_have_the_documented_values() {
    assert_eq!(default_m(), 16);
    assert_eq!(default_ef_construction(), 128);
    assert_eq!(default_ef_search(), 768);
    assert_eq!(default_db_max_size_gb(), 20);
    assert!(default_true());
    assert_eq!(default_queries_path(), "./db/");
    assert_eq!(default_dev_build_mode(), BuildMode::Dev);
    assert_eq!(default_debug_build_mode(), BuildMode::Debug);
    assert_eq!(default_release_build_mode(), BuildMode::Release);
    assert_eq!(BuildMode::default(), BuildMode::Debug);
    assert!(is_true(&true));
    assert!(!is_true(&false));
}

#[test]
fn default_vector_config_is_recognised() {
    let d = VectorConfig::default();
    assert_eq!(d, VectorConfig { m: 16, ef_construction: 128, ef_search: 768, db_max_size_gb: 20 });
    assert!(is_default_vector_config(&d));
    assert!(!is_default_vector_config(&VectorConfig { m: 17, ..d }));
    assert!(!is_default_vector_config(&VectorConfig { ef_construction: 1, ..d }));
    assert!(!is_default_vector_config(&VectorConfig { ef_search: 1, ..d }));
    assert!(!is_default_vector_config(&VectorConfig { db_max_size_gb: 21, ..d }));
}

#[test]
fn default_graph_config_is_recognised() {
    let d = GraphConfig::default();
    assert!(d.secondary_indices.is_empty());
    assert!(is_default_graph_config(&d));
    assert!(!is_default_graph_config(&GraphConfig { secondary_indices: vec!["age".to_string()] }));
    let copy = GraphConfig { secondary_indices: vec!["a".to_string(), "b".to_string()] }.clone();
    assert_eq!(copy.secondary_indices, vec!["a", "b"]);
}

#[test]
fn default_db_config_turns_everything_on() {
    let d = DbConfig::default();
    assert_eq!(d.vector_config, VectorConfig::default());
    assert_eq!(d.graph_config, GraphConfig::default());
    assert!(d.mcp);
    assert!(d.bm25);
}

#[test]
fn cluster_id_of_each_cloud_kind() {
    assert_eq!(helix("c-1").get_cluster_id(), Some("c-1"));
    assert_eq!(helix("").get_cluster_id(), Some(""));
    assert_eq!(fly().get_cluster_id(), Some("flyio"));
    assert_eq!(ecr().get_cluster_id(), Some("ecr"));
}

#[test]
fn instance_info_answers_by_kind() {
    let l = local(Some(8080), BuildMode::Release);
    let h = helix("c-9");
    let f = fly();
    let e = ecr();
    let li = InstanceInfo::Local(&l);
    let hi = match &h {
        CloudConfig::Helix(c) => InstanceInfo::Helix(c),
        _ => unreachable!(),
    };
    let fi = match &f {
        CloudConfig::FlyIo(c) => InstanceInfo::FlyIo(c),
        _ => unreachable!(),
    };
    let ei = match &e {
        CloudConfig::Ecr(c) => InstanceInfo::Ecr(c),
        _ => unreachable!(),
    };

    assert_eq!(li.build_mode(), BuildMode::Release);
    assert_eq!(hi.build_mode(), BuildMode::Release);
    assert_eq!(fi.build_mode(), BuildMode::Dev);
    assert_eq!(ei.build_mode(), BuildMode::Debug);

    assert_eq!(li.port(), Some(8080));
    assert_eq!(InstanceInfo::Local(&local(None, BuildMode::Dev)).port(), None);
    assert_eq!(hi.port(), None);
    assert_eq!(fi.port(), None);
    assert_eq!(ei.port(), None);

    assert_eq!(li.cluster_id(), None);
    assert_eq!(hi.cluster_id(), Some("c-9"));
    assert_eq!(fi.cluster_id(), Some("flyio"));
    assert_eq!(ei.cluster_id(), Some("ecr"));

    assert!(li.is_local());
    assert!(!hi.is_local());
    assert!(!fi.is_local());
    assert!(!ei.is_local());

    assert!(li.should_build_docker_image());
    assert!(!hi.should_build_docker_image());
    assert!(fi.should_build_docker_image());
    assert!(!ei.should_build_docker_image());

    assert_eq!(li.docker_build_target(), None);
    assert_eq!(hi.docker_build_target(), None);
    assert_eq!(fi.docker_build_target(), Some("linux/amd64"));
    assert_eq!(ei.docker_build_target(), Some("linux/amd64"));

    assert!(li.db_config().mcp);
    assert_eq!(hi.db_config().vector_config.m, 16);
}

#[test]
fn from_instance_copies_the_cloud_configuration() {
    let h = helix("c-7");
    let info = match &h {
        CloudConfig::Helix(c) => InstanceInfo::Helix(c),
        _ => unreachable!(),
    };
    match CloudConfig::from_instance(info) {
        CloudConfig::Helix(c) => {
            assert_eq!(c.cluster_id, "c-7");
            assert_eq!(c.region.as_deref(), Some("eu"));
            assert_eq!(c.build_mode, BuildMode::Release);
            assert_eq!(c.db_config.vector_config, VectorConfig::default());
        }
        other => panic!("wrong kind: {:?}", other),
    }
    let f = fly();
    let info = match &f {
        CloudConfig::FlyIo(c) => InstanceInfo::FlyIo(c),
        _ => unreachable!(),
    };
    assert!(matches!(CloudConfig::from_instance(info), CloudConfig::FlyIo(c) if c.cluster_id == "c-fly"));
    let e = ecr();
    let info = match &e {
        CloudConfig::Ecr(c) => InstanceInfo::Ecr(c),
        _ => unreachable!(),
    };
    assert!(matches!(
        CloudConfig::from_instance(info),
        CloudConfig::Ecr(c) if c.repository_name == "repo" && c.region == "us-east-1" && c.registry_url.is_none()
    ));
}

#[test]
fn validate_accepts_a_sound_configuration() {
    assert_eq!(config("p", &["dev"], &[]).validate(), Ok(()));
    assert_eq!(config("p", &[], &[("prod", helix("c"))]).validate(), Ok(()));
    assert_eq!(config("p", &["a", "b"], &[("x", fly()), ("y", ecr())]).validate(), Ok(()));
}

#[test]
fn validate_refuses_an_empty_project_name_first() {
    assert_eq!(config("", &["dev"], &[]).validate(), Err(ConfigError::EmptyProjectName));
    assert_eq!(config("", &[], &[]).validate(), Err(ConfigError::EmptyProjectName));
    assert_eq!(config("", &[""], &[]).validate(), Err(ConfigError::EmptyProjectName));
}

#[test]
fn validate_refuses_a_configuration_without_instances() {
    assert_eq!(config("p", &[], &[]).validate(), Err(ConfigError::NoInstances));
}

#[test]
fn validate_refuses_an_empty_instance_name() {
    assert_eq!(config("p", &["dev", ""], &[]).validate(), Err(ConfigError::EmptyInstanceName));
    assert_eq!(config("p", &[""], &[]).validate(), Err(ConfigError::EmptyInstanceName));
    assert_eq!(
        config("p", &["dev"], &[("x", fly()), ("", helix("c"))]).validate(),
        Err(ConfigError::EmptyInstanceName)
    );
    assert_eq!(config("p", &[], &[("", ecr())]).validate(), Err(ConfigError::EmptyInstanceName));
}

#[test]
fn get_instance_prefers_local_over_cloud() {
    let c = config("p", &["dev", "both"], &[("prod", helix("c-1")), ("both", fly())]);
    assert!(matches!(c.get_instance("dev"), Ok(InstanceInfo::Local(l)) if l.port == Some(1000)));
    assert!(matches!(c.get_instance("both"), Ok(InstanceInfo::Local(_))));
    assert!(matches!(c.get_instance("prod"), Ok(InstanceInfo::Helix(h)) if h.cluster_id == "c-1"));
}

#[test]
fn get_instance_finds_each_cloud_kind() {
    let c = config("p", &[], &[("h", helix("c-1")), ("f", fly()), ("e", ecr())]);
    assert!(matches!(c.get_instance("h"), Ok(InstanceInfo::Helix(_))));
    assert!(matches!(c.get_instance("f"), Ok(InstanceInfo::FlyIo(_))));
    assert!(matches!(c.get_instance("e"), Ok(InstanceInfo::Ecr(_))));
}

#[test]
fn get_instance_of_unknown_name_is_an_error_with_the_name() {
    let c = config("p", &["dev"], &[("prod", helix("c-1"))]);
    match c.get_instance("staging") {
        Err(e) => {
            assert_eq!(e, ConfigError::InstanceNotFound("staging".to_string()));
            assert_eq!(e.message(), "Instance 'staging' not found in helix.toml");
        }
        Ok(_) => panic!("found an instance that is not there"),
    }
}

#[test]
fn list_instances_gives_local_then_cloud_names() {
    let c = config("p", &["dev", "test"], &[("prod", helix("c-1")), ("edge", fly())]);
    let listed: Vec<&str> = c.list_instances().into_iter().map(|s| s.as_str()).collect();
    assert_eq!(listed, vec!["dev", "test", "prod", "edge"]);
    assert!(config("p", &[], &[]).list_instances().is_empty());
}

#[test]
fn remove_instance_takes_out_local_before_cloud() {
    let mut c = config("p", &["dev", "both"], &[("prod", helix("c-1")), ("both", fly())]);
    assert_eq!(c.remove_instance("both"), Ok(()));
    assert!(!c.local.contains_key("both"));
    assert!(c.cloud.contains_key("both"));
    assert_eq!(c.remove_instance("both"), Ok(()));
    assert!(!c.cloud.contains_key("both"));
    assert_eq!(c.remove_instance("prod"), Ok(()));
    let listed: Vec<&str> = c.list_instances().into_iter().map(|s| s.as_str()).collect();
    assert_eq!(listed, vec!["dev"]);
}

#[test]
fn remove_instance_keeps_the_last_instance() {
    let mut c = config("p", &["dev"], &[]);
    let e = c.remove_instance("dev").unwrap_err();
    assert_eq!(e, ConfigError::LastInstance("dev".to_string()));
    assert_eq!(
        e.message(),
        "Cannot delete instance 'dev'. At least one instance must remain in the configuration.\nIf you want to remove this project entirely, delete the helix.toml file instead."
    );
    assert!(c.local.contains_key("dev"));

    let mut only_cloud = config("p", &[], &[("prod", ecr())]);
    assert_eq!(
        only_cloud.remove_instance("prod"),
        Err(ConfigError::LastInstance("prod".to_string()))
    );
    assert!(only_cloud.cloud.contains_key("prod"));

    let mut none = config("p", &[], &[]);
    assert_eq!(none.remove_instance("x"), Err(ConfigError::LastInstance("x".to_string())));

    let mut other = config("p", &["dev"], &[]);
    assert_eq!(other.remove_instance("nope"), Err(ConfigError::LastInstance("nope".to_string())));
}

#[test]
fn remove_instance_of_unknown_name_changes_nothing() {
    let mut c = config("p", &["dev"], &[("prod", helix("c-1"))]);
    let e = c.remove_instance("staging").unwrap_err();
    assert_eq!(e, ConfigError::InstanceNotConfigured("staging".to_string()));
    assert_eq!(e.message(), "Instance 'staging' not found in configuration");
    let listed: Vec<&str> = c.list_instances().into_iter().map(|s| s.as_str()).collect();
    assert_eq!(listed, vec!["dev", "prod"]);
}

#[test]
fn remove_instance_with_one_local_and_one_cloud_can_remove_either() {
    let mut c = config("p", &["dev"], &[("prod", helix("c-1"))]);
    assert_eq!(c.remove_instance("dev"), Ok(()));
    assert_eq!(c.remove_instance("prod"), Err(ConfigError::LastInstance("prod".to_string())));
}

#[test]
fn default_config_has_one_local_dev_instance() {
    let c = HelixConfig::default_config("shop");
    assert_eq!(c.project.name, "shop");
    assert_eq!(c.project.queries, "./db/");
    assert_eq!(c.local.len(), 1);
    assert!(c.cloud.is_empty());
    let dev = c.local.get("dev").unwrap();
    assert_eq!(dev.port, Some(6969));
    assert_eq!(dev.build_mode, BuildMode::Debug);
    assert_eq!(dev.db_config.vector_config, VectorConfig::default());
    assert!(dev.db_config.graph_config.secondary_indices.is_empty());
    assert!(dev.db_config.mcp);
    assert!(dev.db_config.bm25);
    assert_eq!(c.validate(), Ok(()));
    assert!(matches!(c.get_instance("dev"), Ok(InstanceInfo::Local(_))));
    assert_eq!(HelixConfig::default_config("").validate(), Err(ConfigError::EmptyProjectName));
}

#[test]
fn every_error_has_its_text() {
    assert_eq!(ConfigError::EmptyProjectName.message(), "Project name cannot be empty");
    assert_eq!(ConfigError::NoInstances.message(), "At least one instance must be defined");
    assert_eq!(ConfigError::EmptyInstanceName.message(), "Instance name cannot be empty");
    assert_eq!(
        ConfigError::MissingClusterId("prod".to_string()).message(),
        "Cloud instance 'prod' must have a non-empty cluster_id"
    );
    assert_eq!(
        ConfigError::InstanceNotFound("a b".to_string()).message(),
        "Instance 'a b' not found in helix.toml"
    );
    assert_eq!(
        ConfigError::InstanceNotConfigured("".to_string()).message(),
        "Instance '' not found in configuration"
    );
}

#[test]
fn local_port_falls_back_to_the_default() {
    assert_eq!(DEFAULT_LOCAL_PORT, 6969);
    assert_eq!(local(Some(8080), BuildMode::Dev).port_or_default(), 8080);
    assert_eq!(local(Some(0), BuildMode::Dev).port_or_default(), 0);
    assert_eq!(local(None, BuildMode::Dev).port_or_default(), 6969);
}

#[test]
fn spare_instance_means_more_than_one() {
    assert!(!config("p", &[], &[]).has_spare_instance());
    assert!(!config("p", &["a"], &[]).has_spare_instance());
    assert!(!config("p", &[], &[("x", fly())]).has_spare_instance());
    assert!(config("p", &["a"], &[("x", fly())]).has_spare_instance());
    assert!(config("p", &["a", "b"], &[]).has_spare_instance());
    assert!(config("p", &[], &[("x", fly()), ("y", ecr())]).has_spare_instance());
}

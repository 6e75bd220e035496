//! The project configuration: the project itself, its local and cloud
//! instances, and the rules a configuration has to meet.

use vstd::prelude::*;
use vstd::string::StringExecFns;
use crate::table::InstanceTable;

verus! {

/// How an instance is built.
#[derive(Debug, Clone, Copy, PartialEq, Eq, Structural)]
pub enum BuildMode {
    Dev,
    Debug,
    Release,
}

impl Default for BuildMode {
    /// Instances are built in debug mode unless told otherwise.
    fn default() -> (mode: BuildMode)
        ensures
            mode == BuildMode::Debug,
    {
        BuildMode::Debug
    }
}

/// The build mode of a development instance.
pub fn default_dev_build_mode() -> (mode: BuildMode)
    ensures
        mode == BuildMode::Dev,
{
    BuildMode::Dev
}

/// The build mode of a debug instance.
pub fn default_debug_build_mode() -> (mode: BuildMode)
    ensures
        mode == BuildMode::Debug,
{
    BuildMode::Debug
}

/// The build mode of a release instance.
pub fn default_release_build_mode() -> (mode: BuildMode)
    ensures
        mode == BuildMode::Release,
{
    BuildMode::Release
}

/// The value of a switch that is on unless it is turned off.
pub fn default_true() -> (on: bool)
    ensures
        on,
{
    true
}

/// The default number of links per vector.
pub fn default_m() -> (m: u32)
    ensures
        m == 16,
{
    16
}

/// The default size of the candidate list while the index is built.
pub fn default_ef_construction() -> (ef: u32)
    ensures
        ef == 128,
{
    128
}

/// The default size of the candidate list while the index is searched.
pub fn default_ef_search() -> (ef: u32)
    ensures
        ef == 768,
{
    768
}

/// The default limit of the database size, in gigabytes.
pub fn default_db_max_size_gb() -> (gb: u32)
    ensures
        gb == 20,
{
    20
}

/// The directory that holds the queries of a project unless another is
/// named.
pub fn default_queries_path() -> (path: String)
    ensures
        path@ == "./db/"@,
{
    String::from_str("./db/")
}

/// Whether a switch is on.
pub fn is_true(value: &bool) -> (on: bool)
    ensures
        on == *value,
{
    *value
}

/// The settings of the vector index.
#[derive(Debug, Clone, Copy, PartialEq, Eq, Structural)]
pub struct VectorConfig {
    pub m: u32,
    pub ef_construction: u32,
    pub ef_search: u32,
    pub db_max_size_gb: u32,
}

impl VectorConfig {
    /// The settings that `default` gives.
    pub open spec fn spec_default() -> VectorConfig {
        VectorConfig { m: 16, ef_construction: 128, ef_search: 768, db_max_size_gb: 20 }
    }
}

impl Default for VectorConfig {
    fn default() -> (config: VectorConfig)
        ensures
            config == VectorConfig::spec_default(),
    {
        VectorConfig {
            m: default_m(),
            ef_construction: default_ef_construction(),
            ef_search: default_ef_search(),
            db_max_size_gb: default_db_max_size_gb(),
        }
    }
}

/// Whether the settings of the vector index are the default ones.
pub fn is_default_vector_config(value: &VectorConfig) -> (same: bool)
    ensures
        same == (*value == VectorConfig::spec_default()),
{
    *value == VectorConfig::default()
}

/// The settings of the graph.
#[derive(Debug, PartialEq, Eq)]
pub struct GraphConfig {
    pub secondary_indices: Vec<String>,
}

impl Clone for GraphConfig {
    /// Settings that name the same secondary indices in the same order.
    fn clone(&self) -> (copy: GraphConfig)
        ensures
            copy.secondary_indices@ == self.secondary_indices@,
    {
        let mut names: Vec<String> = Vec::with_capacity(self.secondary_indices.len());
        let mut i: usize = 0;
        while i < self.secondary_indices.len()
            invariant
                i <= self.secondary_indices.len(),
                names@ == self.secondary_indices@.take(i as int),
            decreases self.secondary_indices.len() - i,
        {
            names.push(self.secondary_indices[i].clone());
            assert(names@ =~= self.secondary_indices@.take(i + 1));
            i += 1;
        }
        assert(names@ =~= self.secondary_indices@);
        GraphConfig { secondary_indices: names }
    }
}

impl Default for GraphConfig {
    /// A graph has no secondary index unless one is named.
    fn default() -> (config: GraphConfig)
        ensures
            config.secondary_indices@ == Seq::<String>::empty(),
    {
        GraphConfig { secondary_indices: Vec::new() }
    }
}

/// Whether the settings of the graph are the default ones: no secondary
/// index.
pub fn is_default_graph_config(value: &GraphConfig) -> (same: bool)
    ensures
        same == (value.secondary_indices@.len() == 0),
{
    value.secondary_indices.len() == 0
}

/// The settings of the database of an instance.
#[derive(Debug)]
pub struct DbConfig {
    pub vector_config: VectorConfig,
    pub graph_config: GraphConfig,
    pub mcp: bool,
    pub bm25: bool,
}

impl DbConfig {
    /// Whether two groups of settings say the same.
    pub open spec fn same_as(&self, other: &DbConfig) -> bool {
        &&& self.vector_config == other.vector_config
        &&& self.graph_config.secondary_indices@ == other.graph_config.secondary_indices@
        &&& self.mcp == other.mcp
        &&& self.bm25 == other.bm25
    }

    /// Whether these are the settings that `default` gives.
    pub open spec fn is_default(&self) -> bool {
        &&& self.vector_config == VectorConfig::spec_default()
        &&& self.graph_config.secondary_indices@.len() == 0
        &&& self.mcp
        &&& self.bm25
    }
}

impl Clone for DbConfig {
    fn clone(&self) -> (copy: DbConfig)
        ensures
            copy.same_as(self),
    {
        DbConfig {
            vector_config: self.vector_config,
            graph_config: self.graph_config.clone(),
            mcp: self.mcp,
            bm25: self.bm25,
        }
    }
}

impl Default for DbConfig {
    fn default() -> (config: DbConfig)
        ensures
            config.is_default(),
    {
        DbConfig {
            vector_config: VectorConfig::default(),
            graph_config: GraphConfig::default(),
            mcp: true,
            bm25: true,
        }
    }
}

/// An instance that runs on this machine.
#[derive(Debug)]
pub struct LocalInstanceConfig {
    pub port: Option<u16>,
    pub build_mode: BuildMode,
    pub db_config: DbConfig,
}

/// The port of a local instance that names none.
pub const DEFAULT_LOCAL_PORT: u16 = 6969;

impl LocalInstanceConfig {
    /// The port the instance listens on: its own if it names one, the
    /// default one if not.
    pub fn port_or_default(&self) -> (port: u16)
        ensures
            port == match self.port {
                Some(named) => named,
                None => DEFAULT_LOCAL_PORT,
            },
    {
        match self.port {
            Some(named) => named,
            None => DEFAULT_LOCAL_PORT,
        }
    }

    /// Whether two instances are configured the same.
    pub open spec fn same_as(&self, other: &LocalInstanceConfig) -> bool {
        &&& self.port == other.port
        &&& self.build_mode == other.build_mode
        &&& self.db_config.same_as(&other.db_config)
    }
}

impl Clone for LocalInstanceConfig {
    fn clone(&self) -> (copy: LocalInstanceConfig)
        ensures
            copy.same_as(self),
    {
        LocalInstanceConfig {
            port: self.port,
            build_mode: self.build_mode,
            db_config: self.db_config.clone(),
        }
    }
}

/// A copy of a name that may be missing.
fn clone_optional_name(name: &Option<String>) -> (copy: Option<String>)
    ensures
        copy == *name,
{
    match name {
        Some(text) => Some(text.clone()),
        None => None,
    }
}

/// An instance that runs on a managed cluster.
#[derive(Debug)]
pub struct CloudInstanceConfig {
    pub cluster_id: String,
    pub region: Option<String>,
    pub build_mode: BuildMode,
    pub db_config: DbConfig,
}

impl CloudInstanceConfig {
    /// Whether two instances are configured the same.
    pub open spec fn same_as(&self, other: &CloudInstanceConfig) -> bool {
        &&& self.cluster_id == other.cluster_id
        &&& self.region == other.region
        &&& self.build_mode == other.build_mode
        &&& self.db_config.same_as(&other.db_config)
    }
}

impl Clone for CloudInstanceConfig {
    fn clone(&self) -> (copy: CloudInstanceConfig)
        ensures
            copy.same_as(self),
    {
        CloudInstanceConfig {
            cluster_id: self.cluster_id.clone(),
            region: clone_optional_name(&self.region),
            build_mode: self.build_mode,
            db_config: self.db_config.clone(),
        }
    }
}

/// An instance that runs as an application of a platform provider.
#[derive(Debug)]
pub struct FlyInstanceConfig {
    pub cluster_id: String,
    pub build_mode: BuildMode,
    pub db_config: DbConfig,
}

impl FlyInstanceConfig {
    /// Whether two instances are configured the same.
    pub open spec fn same_as(&self, other: &FlyInstanceConfig) -> bool {
        &&& self.cluster_id == other.cluster_id
        &&& self.build_mode == other.build_mode
        &&& self.db_config.same_as(&other.db_config)
    }
}

impl Clone for FlyInstanceConfig {
    fn clone(&self) -> (copy: FlyInstanceConfig)
        ensures
            copy.same_as(self),
    {
        FlyInstanceConfig {
            cluster_id: self.cluster_id.clone(),
            build_mode: self.build_mode,
            db_config: self.db_config.clone(),
        }
    }
}

/// An instance whose image is kept in a container registry.
#[derive(Debug)]
pub struct EcrConfig {
    pub repository_name: String,
    pub region: String,
    pub registry_url: Option<String>,
    pub build_mode: BuildMode,
    pub db_config: DbConfig,
}

impl EcrConfig {
    /// Whether two instances are configured the same.
    pub open spec fn same_as(&self, other: &EcrConfig) -> bool {
        &&& self.repository_name == other.repository_name
        &&& self.region == other.region
        &&& self.registry_url == other.registry_url
        &&& self.build_mode == other.build_mode
        &&& self.db_config.same_as(&other.db_config)
    }
}

impl Clone for EcrConfig {
    fn clone(&self) -> (copy: EcrConfig)
        ensures
            copy.same_as(self),
    {
        EcrConfig {
            repository_name: self.repository_name.clone(),
            region: self.region.clone(),
            registry_url: clone_optional_name(&self.registry_url),
            build_mode: self.build_mode,
            db_config: self.db_config.clone(),
        }
    }
}

/// A cloud instance, by the kind of cloud it runs on.
#[derive(Debug)]
pub enum CloudConfig {
    Helix(CloudInstanceConfig),
    FlyIo(FlyInstanceConfig),
    Ecr(EcrConfig),
}

impl Clone for CloudConfig {
    fn clone(&self) -> (copy: CloudConfig)
        ensures
            copy.same_as(self),
    {
        match self {
            CloudConfig::Helix(config) => CloudConfig::Helix(config.clone()),
            CloudConfig::FlyIo(config) => CloudConfig::FlyIo(config.clone()),
            CloudConfig::Ecr(config) => CloudConfig::Ecr(config.clone()),
        }
    }
}

impl CloudConfig {
    /// Whether two cloud instances are of the same kind and configured the
    /// same.
    pub open spec fn same_as(&self, other: &CloudConfig) -> bool {
        match (self, other) {
            (CloudConfig::Helix(a), CloudConfig::Helix(b)) => a.same_as(b),
            (CloudConfig::FlyIo(a), CloudConfig::FlyIo(b)) => a.same_as(b),
            (CloudConfig::Ecr(a), CloudConfig::Ecr(b)) => a.same_as(b),
            _ => false,
        }
    }

    /// The configuration of a cloud instance, copied out of the
    /// configuration it is borrowed from. Local instances have none.
    pub fn from_instance(instance_info: InstanceInfo<'_>) -> (config: CloudConfig)
        requires
            !(instance_info is Local),
        ensures
            instance_info matches InstanceInfo::Helix(c) ==> config.same_as(&CloudConfig::Helix(*c)),
            instance_info matches InstanceInfo::FlyIo(c) ==> config.same_as(&CloudConfig::FlyIo(*c)),
            instance_info matches InstanceInfo::Ecr(c) ==> config.same_as(&CloudConfig::Ecr(*c)),
    {
        match instance_info {
            InstanceInfo::Helix(config) => CloudConfig::Helix(config.clone()),
            InstanceInfo::FlyIo(config) => CloudConfig::FlyIo(config.clone()),
            InstanceInfo::Ecr(config) => CloudConfig::Ecr(config.clone()),
            InstanceInfo::Local(_) => vstd::pervasive::unreached(),
        }
    }

    /// The cluster id of the instance: its own where it runs on a managed
    /// cluster, the name of the kind of cloud elsewhere.
    pub open spec fn spec_cluster_id(&self) -> Seq<char> {
        match self {
            CloudConfig::Helix(config) => config.cluster_id@,
            CloudConfig::FlyIo(_) => "flyio"@,
            CloudConfig::Ecr(_) => "ecr"@,
        }
    }

    /// The cluster id of the instance. Every kind of cloud instance has one.
    pub fn get_cluster_id(&self) -> (id: Option<&str>)
        ensures
            id matches Some(s) && s@ == self.spec_cluster_id(),
    {
        match self {
            CloudConfig::Helix(config) => Some(config.cluster_id.as_str()),
            CloudConfig::FlyIo(_) => Some("flyio"),
            CloudConfig::Ecr(_) => Some("ecr"),
        }
    }
}

/// One instance of a configuration, local or cloud, borrowed from it.
#[derive(Debug, Clone, Copy)]
pub enum InstanceInfo<'a> {
    Local(&'a LocalInstanceConfig),
    Helix(&'a CloudInstanceConfig),
    FlyIo(&'a FlyInstanceConfig),
    Ecr(&'a EcrConfig),
}

impl<'a> InstanceInfo<'a> {
    /// The instance that a cloud configuration stands for.
    pub open spec fn of_cloud(config: &'a CloudConfig) -> InstanceInfo<'a> {
        match config {
            CloudConfig::Helix(c) => InstanceInfo::Helix(c),
            CloudConfig::FlyIo(c) => InstanceInfo::FlyIo(c),
            CloudConfig::Ecr(c) => InstanceInfo::Ecr(c),
        }
    }

    /// How the instance is built.
    pub fn build_mode(&self) -> (mode: BuildMode)
        ensures
            mode == match self {
                InstanceInfo::Local(config) => config.build_mode,
                InstanceInfo::Helix(config) => config.build_mode,
                InstanceInfo::FlyIo(config) => config.build_mode,
                InstanceInfo::Ecr(config) => config.build_mode,
            },
    {
        match self {
            InstanceInfo::Local(config) => config.build_mode,
            InstanceInfo::Helix(config) => config.build_mode,
            InstanceInfo::FlyIo(config) => config.build_mode,
            InstanceInfo::Ecr(config) => config.build_mode,
        }
    }

    /// The port of a local instance that names one; cloud instances have
    /// none.
    pub fn port(&self) -> (port: Option<u16>)
        ensures
            port == match self {
                InstanceInfo::Local(config) => config.port,
                _ => None::<u16>,
            },
    {
        match self {
            InstanceInfo::Local(config) => config.port,
            InstanceInfo::Helix(_) => None,
            InstanceInfo::FlyIo(_) => None,
            InstanceInfo::Ecr(_) => None,
        }
    }

    /// The cluster id of a cloud instance; local instances have none.
    pub fn cluster_id(&self) -> (id: Option<&str>)
        ensures
            match self {
                InstanceInfo::Local(_) => id is None,
                InstanceInfo::Helix(config) => id matches Some(s) && s@ == config.cluster_id@,
                InstanceInfo::FlyIo(_) => id matches Some(s) && s@ == "flyio"@,
                InstanceInfo::Ecr(_) => id matches Some(s) && s@ == "ecr"@,
            },
    {
        match self {
            InstanceInfo::Local(_) => None,
            InstanceInfo::Helix(config) => Some(config.cluster_id.as_str()),
            InstanceInfo::FlyIo(_) => Some("flyio"),
            InstanceInfo::Ecr(_) => Some("ecr"),
        }
    }

    /// The database settings of the instance.
    pub fn db_config(&self) -> (config: &DbConfig)
        ensures
            *config == match self {
                InstanceInfo::Local(c) => c.db_config,
                InstanceInfo::Helix(c) => c.db_config,
                InstanceInfo::FlyIo(c) => c.db_config,
                InstanceInfo::Ecr(c) => c.db_config,
            },
    {
        match self {
            InstanceInfo::Local(config) => &config.db_config,
            InstanceInfo::Helix(config) => &config.db_config,
            InstanceInfo::FlyIo(config) => &config.db_config,
            InstanceInfo::Ecr(config) => &config.db_config,
        }
    }

    /// Whether the instance runs on this machine.
    pub fn is_local(&self) -> (local: bool)
        ensures
            local == (self is Local),
    {
        match self {
            InstanceInfo::Local(_) => true,
            _ => false,
        }
    }

    /// Whether deploying the instance starts with building a container
    /// image: so for local instances and for those on the platform provider.
    pub fn should_build_docker_image(&self) -> (build: bool)
        ensures
            build == (self is Local || self is FlyIo),
    {
        match self {
            InstanceInfo::Local(_) => true,
            InstanceInfo::FlyIo(_) => true,
            _ => false,
        }
    }

    /// The platform that a container image of the instance is built for,
    /// where it is not the platform of this machine.
    pub fn docker_build_target(&self) -> (target: Option<&str>)
        ensures
            match self {
                InstanceInfo::Local(_) => target is None,
                InstanceInfo::Helix(_) => target is None,
                InstanceInfo::FlyIo(_) => target matches Some(s) && s@ == "linux/amd64"@,
                InstanceInfo::Ecr(_) => target matches Some(s) && s@ == "linux/amd64"@,
            },
    {
        match self {
            InstanceInfo::Local(_) => None,
            InstanceInfo::Helix(_) => None,
            InstanceInfo::FlyIo(_) => Some("linux/amd64"),
            InstanceInfo::Ecr(_) => Some("linux/amd64"),
        }
    }
}

/// The project that a configuration belongs to.
#[derive(Debug)]
pub struct ProjectConfig {
    pub name: String,
    /// The directory of the queries, with `/` between its parts.
    pub queries: String,
}

impl Clone for ProjectConfig {
    fn clone(&self) -> (copy: ProjectConfig)
        ensures
            copy == *self,
    {
        ProjectConfig { name: self.name.clone(), queries: self.queries.clone() }
    }
}

/// Why a configuration was refused, or an instance not found in it.
#[derive(Debug, Clone, PartialEq, Eq)]
pub enum ConfigError {
    /// The project has no name.
    EmptyProjectName,
    /// The configuration names no instance at all.
    NoInstances,
    /// An instance has the empty name.
    EmptyInstanceName,
    /// The cloud instance of this name has no cluster id.
    MissingClusterId(String),
    /// The configuration file has no instance of this name.
    InstanceNotFound(String),
    /// The instance of this name is the only one left and cannot go.
    LastInstance(String),
    /// There is no instance of this name to remove.
    InstanceNotConfigured(String),
}

impl ConfigError {
    /// The text of the error.
    pub open spec fn spec_message(&self) -> Seq<char> {
        match self {
            ConfigError::EmptyProjectName => "Project name cannot be empty"@,
            ConfigError::NoInstances => "At least one instance must be defined"@,
            ConfigError::EmptyInstanceName => "Instance name cannot be empty"@,
            ConfigError::MissingClusterId(name) => "Cloud instance '"@ + name@
                + "' must have a non-empty cluster_id"@,
            ConfigError::InstanceNotFound(name) => "Instance '"@ + name@
                + "' not found in helix.toml"@,
            ConfigError::LastInstance(name) => "Cannot delete instance '"@ + name@
                + "'. At least one instance must remain in the configuration.\nIf you want to remove this project entirely, delete the helix.toml file instead."@,
            ConfigError::InstanceNotConfigured(name) => "Instance '"@ + name@
                + "' not found in configuration"@,
        }
    }

    /// The text of the error, as it is shown to the user.
    pub fn message(&self) -> (text: String)
        ensures
            text@ == self.spec_message(),
    {
        match self {
            ConfigError::EmptyProjectName => String::from_str("Project name cannot be empty"),
            ConfigError::NoInstances => String::from_str("At least one instance must be defined"),
            ConfigError::EmptyInstanceName => String::from_str("Instance name cannot be empty"),
            ConfigError::MissingClusterId(name) => String::from_str("Cloud instance '").concat(
                name.as_str(),
            ).concat("' must have a non-empty cluster_id"),
            ConfigError::InstanceNotFound(name) => String::from_str("Instance '").concat(
                name.as_str(),
            ).concat("' not found in helix.toml"),
            ConfigError::LastInstance(name) => String::from_str("Cannot delete instance '").concat(
                name.as_str(),
            ).concat(
                "'. At least one instance must remain in the configuration.\nIf you want to remove this project entirely, delete the helix.toml file instead.",
            ),
            ConfigError::InstanceNotConfigured(name) => String::from_str("Instance '").concat(
                name.as_str(),
            ).concat("' not found in configuration"),
        }
    }
}

/// The configuration of a project: the project and its instances by name.
#[derive(Debug, Clone)]
pub struct HelixConfig {
    pub project: ProjectConfig,
    pub local: InstanceTable<LocalInstanceConfig>,
    pub cloud: InstanceTable<CloudConfig>,
}

impl HelixConfig {
    /// Whether the configuration meets the rules, and the rule it breaks
    /// first if it does not: the project has a name, there is at least one
    /// instance, and no instance has the empty name.
    pub open spec fn spec_validate(&self) -> Result<(), ConfigError> {
        if self.project.name@.len() == 0 {
            Err(ConfigError::EmptyProjectName)
        } else if self.local@ == Map::<Seq<char>, LocalInstanceConfig>::empty() && self.cloud@
            == Map::<Seq<char>, CloudConfig>::empty() {
            Err(ConfigError::NoInstances)
        } else if self.local@.contains_key(Seq::<char>::empty()) || self.cloud@.contains_key(
            Seq::<char>::empty(),
        ) {
            Err(ConfigError::EmptyInstanceName)
        } else {
            Ok(())
        }
    }

    /// The instance of the given name: the local one if there is one, else
    /// the cloud one.
    pub open spec fn spec_instance(&self, name: Seq<char>) -> Option<InstanceInfo<'_>> {
        if self.local@.contains_key(name) {
            Some(InstanceInfo::Local(&self.local@[name]))
        } else if self.cloud@.contains_key(name) {
            Some(InstanceInfo::of_cloud(&self.cloud@[name]))
        } else {
            None
        }
    }

    /// The number of instances, local and cloud.
    pub open spec fn instance_count(&self) -> nat {
        self.local.names().len() + self.cloud.names().len()
    }

    /// Whether an instance can be removed: only while more than one is
    /// left.
    pub fn has_spare_instance(&self) -> (spare: bool)
        ensures
            spare == (self.instance_count() > 1),
    {
        let local_len = self.local.len();
        let cloud_len = self.cloud.len();
        !((local_len == 0 && cloud_len <= 1) || (local_len == 1 && cloud_len == 0))
    }

    /// Checks the configuration against the rules.
    pub fn validate(&self) -> (result: Result<(), ConfigError>)
        ensures
            result == self.spec_validate(),
    {
        if self.project.name.as_str().is_empty() {
            return Err(ConfigError::EmptyProjectName);
        }
        if self.local.is_empty() && self.cloud.is_empty() {
            return Err(ConfigError::NoInstances);
        }
        let mut i: usize = 0;
        let local_len = self.local.len();
        while i < local_len
            invariant
                i <= local_len,
                local_len == self.local.names().len(),
                self.project.name@.len() != 0,
                !(self.local@ == Map::<Seq<char>, LocalInstanceConfig>::empty() && self.cloud@
                    == Map::<Seq<char>, CloudConfig>::empty()),
                self.local.consistent(),
                forall|j: int| 0 <= j < i ==> (#[trigger] self.local.names()[j]).len() != 0,
            decreases local_len - i,
        {
            let (name, _) = self.local.entry_at(i);
            if name.as_str().is_empty() {
                assert(name@ =~= Seq::<char>::empty());
                return Err(ConfigError::EmptyInstanceName);
            }
            i += 1;
        }
        proof {
            if self.local@.contains_key(Seq::<char>::empty()) {
                let names = self.local.names();
                assert(names.to_set().contains(Seq::<char>::empty()));
                let j = choose|j: int| 0 <= j < names.len() && names[j] == Seq::<char>::empty();
                assert(names[j].len() == 0);
            }
        }
        let mut k: usize = 0;
        let cloud_len = self.cloud.len();
        while k < cloud_len
            invariant
                k <= cloud_len,
                cloud_len == self.cloud.names().len(),
                self.project.name@.len() != 0,
                !(self.local@ == Map::<Seq<char>, LocalInstanceConfig>::empty() && self.cloud@
                    == Map::<Seq<char>, CloudConfig>::empty()),
                !self.local@.contains_key(Seq::<char>::empty()),
                self.cloud.consistent(),
                forall|j: int| 0 <= j < k ==> (#[trigger] self.cloud.names()[j]).len() != 0,
            decreases cloud_len - k,
        {
            let (name, cloud_config) = self.cloud.entry_at(k);
            if name.as_str().is_empty() {
                assert(name@ =~= Seq::<char>::empty());
                return Err(ConfigError::EmptyInstanceName);
            }
            if cloud_config.get_cluster_id().is_none() {
                return Err(ConfigError::MissingClusterId(name.clone()));
            }
            k += 1;
        }
        proof {
            if self.cloud@.contains_key(Seq::<char>::empty()) {
                let names = self.cloud.names();
                assert(names.to_set().contains(Seq::<char>::empty()));
                let j = choose|j: int| 0 <= j < names.len() && names[j] == Seq::<char>::empty();
                assert(names[j].len() == 0);
            }
        }
        Ok(())
    }

    /// The instance of the given name: the local instance of that name if
    /// there is one, else the cloud instance of that name; an error that
    /// carries the name if there is neither.
    pub fn get_instance(&self, name: &str) -> (result: Result<InstanceInfo<'_>, ConfigError>)
        ensures
            match result {
                Ok(info) => self.spec_instance(name@) == Some(info),
                Err(e) => self.spec_instance(name@) is None && (e matches ConfigError::InstanceNotFound(
                    n,
                ) && n@ == name@),
            },
    {
        if let Some(local_config) = self.local.get(name) {
            return Ok(InstanceInfo::Local(local_config));
        }
        if let Some(cloud_config) = self.cloud.get(name) {
            match cloud_config {
                CloudConfig::Helix(config) => {
                    return Ok(InstanceInfo::Helix(config));
                },
                CloudConfig::FlyIo(config) => {
                    return Ok(InstanceInfo::FlyIo(config));
                },
                CloudConfig::Ecr(config) => {
                    return Ok(InstanceInfo::Ecr(config));
                },
            }
        }
        Err(ConfigError::InstanceNotFound(String::from_str(name)))
    }

    /// The names of all instances: the local ones, then the cloud ones, each
    /// group in the order of its table.
    pub fn list_instances(&self) -> (instances: Vec<&String>)
        ensures
            instances@.len() == self.instance_count(),
            forall|i: int|
                0 <= i < instances@.len() ==> (#[trigger] instances@[i])@ == (self.local.names()
                    + self.cloud.names())[i],
    {
        let mut instances = self.local.keys();
        let cloud = self.cloud.keys();
        let ghost local_names = self.local.names();
        let mut i: usize = 0;
        while i < cloud.len()
            invariant
                i <= cloud.len(),
                cloud@.len() == self.cloud.names().len(),
                forall|j: int| 0 <= j < cloud@.len() ==> (#[trigger] cloud@[j])@ == self.cloud.names()[j],
                instances@.len() == local_names.len() + i,
                local_names == self.local.names(),
                forall|j: int|
                    0 <= j < instances@.len() ==> (#[trigger] instances@[j])@ == (local_names
                        + self.cloud.names())[j],
            decreases cloud.len() - i,
        {
            instances.push(cloud[i]);
            i += 1;
        }
        instances
    }

    /// Removes the instance of the given name, local before cloud. The last
    /// instance of a configuration cannot be removed; the configuration is
    /// left as it is whenever an error is returned.
    pub fn remove_instance(&mut self, name: &str) -> (result: Result<(), ConfigError>)
        ensures
            final(self).project == old(self).project,
            result is Ok ==> final(self).instance_count() == old(self).instance_count() - 1,
            old(self).instance_count() <= 1 ==> *final(self) == *old(self) && (result matches Err(
                ConfigError::LastInstance(n),
            ) && n@ == name@),
            old(self).instance_count() > 1 && old(self).local@.contains_key(name@) ==> result is Ok
                && final(self).local@ == old(self).local@.remove(name@) && final(self).cloud == old(
                self,
            ).cloud,
            old(self).instance_count() > 1 && !old(self).local@.contains_key(name@) && old(
                self,
            ).cloud@.contains_key(name@) ==> result is Ok && final(self).cloud@ == old(
                self,
            ).cloud@.remove(name@) && final(self).local == old(self).local,
            old(self).instance_count() > 1 && !old(self).local@.contains_key(name@) && !old(
                self,
            ).cloud@.contains_key(name@) ==> *final(self) == *old(self) && (result matches Err(
                ConfigError::InstanceNotConfigured(n),
            ) && n@ == name@),
    {
        if !self.has_spare_instance() {
            return Err(ConfigError::LastInstance(String::from_str(name)));
        }
        if self.local.contains_key(name) {
            self.local.remove(name);
            return Ok(());
        }
        if self.cloud.contains_key(name) {
            self.cloud.remove(name);
            return Ok(());
        }
        Err(ConfigError::InstanceNotConfigured(String::from_str(name)))
    }

    /// The configuration a new project starts with: the project under the
    /// given name with the default query directory, one local instance
    /// `dev` on port 6969 in debug mode with default database settings, and
    /// no cloud instance.
    pub fn default_config(project_name: &str) -> (config: Self)
        ensures
            config.project.name@ == project_name@,
            config.project.queries@ == "./db/"@,
            config.local@.dom() == set!["dev"@],
            config.local.names() == seq!["dev"@],
            config.local@["dev"@].port == Some(6969u16),
            config.local@["dev"@].build_mode == BuildMode::Debug,
            config.local@["dev"@].db_config.is_default(),
            config.cloud@ == Map::<Seq<char>, CloudConfig>::empty(),
            config.cloud.names() == Seq::<Seq<char>>::empty(),
            config.spec_validate() == if project_name@.len() == 0 {
                Err::<(), ConfigError>(ConfigError::EmptyProjectName)
            } else {
                Ok::<(), ConfigError>(())
            },
    {
        let mut local = InstanceTable::new();
        local.insert(
            String::from_str("dev"),
            LocalInstanceConfig {
                port: Some(DEFAULT_LOCAL_PORT),
                build_mode: BuildMode::Debug,
                db_config: DbConfig::default(),
            },
        );
        proof {
            reveal_strlit("dev");
            assert(local@.dom() =~= set!["dev"@]);
            assert(local@.contains_key("dev"@));
            assert("dev"@.len() == 3);
            assert(!local@.contains_key(Seq::<char>::empty()));
        }
        HelixConfig {
            project: ProjectConfig {
                name: String::from_str(project_name),
                queries: default_queries_path(),
            },
            local,
            cloud: InstanceTable::new(),
        }
    }
}

} // verus!

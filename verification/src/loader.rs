//! In which order configuration files are read, and what becomes of them.

use vstd::prelude::*;
use crate::addr::SocketAddr;
use crate::config::{Cli, Config, ConfigError, LoadedConfig, LoadedConfigFile, Rule, RuleSource};
use crate::files;
use crate::files::FilePath;

verus! {

/// Where rules come from, as plain values.
#[verifier::ext_equal]
pub enum SourceModel {
    Inline(Rule),
    File(files::PathModel),
}

impl View for RuleSource {
    type V = SourceModel;

    open spec fn view(&self) -> SourceModel {
        match self {
            RuleSource::Inline(rule) => SourceModel::Inline(*rule),
            RuleSource::File(file) => SourceModel::File(file@),
        }
    }
}

/// The models of some entries.
pub open spec fn sources_of(entries: Seq<RuleSource>) -> Seq<SourceModel> {
    Seq::new(entries.len(), |i: int| entries[i]@)
}

/// An instance of the forwarder, as plain values.
#[verifier::ext_equal]
pub struct ConfigModel {
    pub listen: Seq<SocketAddr>,
    pub default_upstream: Seq<SocketAddr>,
    pub rules: Seq<Rule>,
    pub log: bool,
}

impl View for Config {
    type V = ConfigModel;

    open spec fn view(&self) -> ConfigModel {
        ConfigModel {
            listen: self.listen@,
            default_upstream: self.default_upstream@,
            rules: self.rules@,
            log: self.log,
        }
    }
}

/// The models of some instances.
pub open spec fn configs_of(configs: Seq<Config>) -> Seq<ConfigModel> {
    Seq::new(configs.len(), |i: int| configs[i]@)
}

/// What is left to do, as plain values.
#[verifier::ext_equal]
pub enum TaskModel {
    Load(files::PathModel),
    Find { source: files::PathModel, named: files::PathModel },
}

/// What is left to do.
#[derive(Debug)]
pub enum Task {
    /// Read this configuration, unless that was done.
    Load(FilePath),
    /// Read the configurations that `named`, in the configuration `source`, stands for.
    Find { source: FilePath, named: FilePath },
}

impl View for Task {
    type V = TaskModel;

    open spec fn view(&self) -> TaskModel {
        match self {
            Task::Load(path) => TaskModel::Load(path@),
            Task::Find { source, named } => TaskModel::Find { source: source@, named: named@ },
        }
    }
}

/// The models of some tasks.
pub open spec fn tasks_of(tasks: Seq<Task>) -> Seq<TaskModel> {
    Seq::new(tasks.len(), |i: int| tasks[i]@)
}

/// How far reading has come, as plain values.
#[verifier::ext_equal]
pub struct LoaderModel {
    pub verbose: bool,
    pub visited: Seq<files::PathModel>,
    pub configs: Seq<ConfigModel>,
    pub todo: Seq<TaskModel>,
}

/// How far reading has come.
#[derive(Debug)]
pub struct Loader {
    pub verbose: bool,
    /// The configurations that were read.
    pub visited: Vec<FilePath>,
    /// The instances so far.
    pub configs: Vec<Config>,
    /// What is left to do, the next task last.
    pub todo: Vec<Task>,
}

impl View for Loader {
    type V = LoaderModel;

    open spec fn view(&self) -> LoaderModel {
        LoaderModel {
            verbose: self.verbose,
            visited: files::paths_of(self.visited@),
            configs: configs_of(self.configs@),
            todo: tasks_of(self.todo@),
        }
    }
}

/// How far the rules of an instance are collected, as plain values.
#[verifier::ext_equal]
pub struct CollectingModel {
    pub loader: LoaderModel,
    pub path: files::PathModel,
    pub config: ConfigModel,
    pub instances: Seq<files::PathModel>,
    pub entries: Seq<SourceModel>,
    pub found: Seq<files::PathModel>,
    pub open_files: Seq<files::PathModel>,
    pub rules: Seq<Rule>,
}

/// How far the rules of an instance are collected.
#[derive(Debug)]
pub struct Collecting {
    pub loader: Loader,
    /// The configuration that holds the instance.
    pub path: FilePath,
    /// The instance.
    pub config: Config,
    /// The files with further instances.
    pub instances: Vec<FilePath>,
    /// Where further rules come from, the next entry last.
    pub entries: Vec<RuleSource>,
    /// The files to read before that, the next one last.
    pub found: Vec<FilePath>,
    /// The files of rules that are being read.
    pub open_files: Vec<FilePath>,
    /// The rules so far.
    pub rules: Vec<Rule>,
}

impl View for Collecting {
    type V = CollectingModel;

    open spec fn view(&self) -> CollectingModel {
        CollectingModel {
            loader: self.loader@,
            path: self.path@,
            config: self.config@,
            instances: files::paths_of(self.instances@),
            entries: sources_of(self.entries@),
            found: files::paths_of(self.found@),
            open_files: files::paths_of(self.open_files@),
            rules: self.rules@,
        }
    }
}

/// What comes next, as plain values.
#[verifier::ext_equal]
pub enum ProgressModel {
    ReadConfig { path: files::PathModel, loader: LoaderModel },
    FindConfigs { source: files::PathModel, named: files::PathModel, loader: LoaderModel },
    FindRules { source: files::PathModel, named: files::PathModel, collecting: CollectingModel },
    ReadRules { path: files::PathModel, collecting: CollectingModel },
    Done(Seq<ConfigModel>),
    Cycle(files::PathModel),
}

/// What comes next in reading configurations.
#[derive(Debug)]
pub enum Progress {
    /// Read this configuration, and go on with [`Loader::config_read`].
    ReadConfig { path: FilePath, loader: Loader },
    /// Find the files that `named`, in `source`, stands for, and go on with
    /// [`Loader::configs_found`].
    FindConfigs { source: FilePath, named: FilePath, loader: Loader },
    /// Find the files that `named`, in `source`, stands for, and go on with
    /// [`Collecting::rules_found`].
    FindRules { source: FilePath, named: FilePath, collecting: Collecting },
    /// Read this file of rules, and go on with [`Collecting::rules_read`].
    ReadRules { path: FilePath, collecting: Collecting },
    /// These are the instances.
    Done(Vec<Config>),
    /// Reading has failed.
    Fail(ConfigError),
}

impl Progress {
    /// What comes next, as plain values.
    pub open spec fn is(self, model: ProgressModel) -> bool {
        match self {
            Progress::ReadConfig { path, loader } => model == (ProgressModel::ReadConfig {
                path: path@,
                loader: loader@,
            }),
            Progress::FindConfigs { source, named, loader } => model == (ProgressModel::FindConfigs {
                source: source@,
                named: named@,
                loader: loader@,
            }),
            Progress::FindRules { source, named, collecting } => model == (ProgressModel::FindRules {
                source: source@,
                named: named@,
                collecting: collecting@,
            }),
            Progress::ReadRules { path, collecting } => model == (ProgressModel::ReadRules {
                path: path@,
                collecting: collecting@,
            }),
            Progress::Done(configs) => model == ProgressModel::Done(configs_of(configs@)),
            Progress::Fail(ConfigError::RuleCycle(path)) => model == ProgressModel::Cycle(path@),
            Progress::Fail(_) => false,
        }
    }
}

/// Whether a path is among others.
pub open spec fn is_among(path: files::PathModel, paths: Seq<files::PathModel>) -> bool {
    exists|i: int| 0 <= i < paths.len() && (#[trigger] paths[i]).parts == path.parts
}

/// The next thing to do: a configuration that was read is not read again.
pub open spec fn advanced(loader: LoaderModel) -> ProgressModel
    decreases loader.todo.len(),
{
    if loader.todo.len() == 0 {
        ProgressModel::Done(loader.configs)
    } else {
        let rest = LoaderModel { todo: loader.todo.drop_last(), ..loader };
        match loader.todo.last() {
            TaskModel::Load(path) => if is_among(path, loader.visited) {
                advanced(rest)
            } else {
                ProgressModel::ReadConfig { path, loader: rest }
            },
            TaskModel::Find { source, named } => ProgressModel::FindConfigs { source, named, loader: rest },
        }
    }
}

/// Tasks to read these configurations, such that the first comes next.
pub open spec fn load_all(paths: Seq<files::PathModel>) -> Seq<TaskModel> {
    Seq::new(paths.len(), |i: int| TaskModel::Load(paths[paths.len() - 1 - i]))
}

/// Tasks to find what these stand for, such that the first comes next.
pub open spec fn find_all(source: files::PathModel, named: Seq<files::PathModel>) -> Seq<TaskModel> {
    Seq::new(named.len(), |i: int| TaskModel::Find { source, named: named[named.len() - 1 - i] })
}

/// A configuration was read, with no instance left to collect: the files with further ones come
/// next.
pub open spec fn config_done(
    loader: LoaderModel,
    path: files::PathModel,
    instances: Seq<files::PathModel>,
) -> ProgressModel {
    advanced(
        LoaderModel {
            visited: loader.visited.push(path),
            todo: loader.todo + find_all(path, instances),
            ..loader
        },
    )
}

/// The instance with these rules, which logs where the program is told so.
pub open spec fn finished(config: ConfigModel, rules: Seq<Rule>, verbose: bool) -> ConfigModel {
    ConfigModel { rules, log: config.log || verbose, ..config }
}

/// The next thing to do for the rules of an instance.
pub open spec fn collected(c: CollectingModel) -> ProgressModel
    decreases c.entries.len(),
{
    if c.found.len() > 0 {
        if is_among(c.found.last(), c.open_files) {
            ProgressModel::Cycle(c.found.last())
        } else {
            ProgressModel::ReadRules {
                path: c.found.last(),
                collecting: CollectingModel {
                    found: c.found.drop_last(),
                    open_files: c.open_files.push(c.found.last()),
                    ..c
                },
            }
        }
    } else if c.entries.len() == 0 {
        config_done(
            LoaderModel {
                configs: c.loader.configs.push(finished(c.config, c.rules, c.loader.verbose)),
                ..c.loader
            },
            c.path,
            c.instances,
        )
    } else {
        let rest = CollectingModel { entries: c.entries.drop_last(), ..c };
        match c.entries.last() {
            SourceModel::Inline(rule) => collected(CollectingModel { rules: c.rules.push(rule), ..rest }),
            SourceModel::File(named) => ProgressModel::FindRules { source: c.path, named, collecting: rest },
        }
    }
}

/// Reading starts with the configuration that the program is called with.
pub open spec fn started(path: files::PathModel, verbose: bool) -> ProgressModel {
    ProgressModel::ReadConfig {
        path,
        loader: LoaderModel { verbose, visited: Seq::empty(), configs: Seq::empty(), todo: Seq::empty() },
    }
}

/// What comes next after a configuration was read, with the instance that it holds, if any.
pub open spec fn after_config(
    loader: LoaderModel,
    path: files::PathModel,
    own: Option<(ConfigModel, Seq<SourceModel>)>,
    instances: Seq<files::PathModel>,
) -> ProgressModel {
    match own {
        Some((config, entries)) => collected(
            CollectingModel {
                loader,
                path,
                config,
                instances,
                entries: entries.reverse(),
                found: Seq::empty(),
                open_files: Seq::empty(),
                rules: Seq::empty(),
            },
        ),
        None => config_done(loader, path, instances),
    }
}

/// What comes next after the files with further instances were found.
pub open spec fn after_configs(loader: LoaderModel, paths: Seq<files::PathModel>) -> ProgressModel {
    advanced(LoaderModel { todo: loader.todo + load_all(paths), ..loader })
}

/// What comes next after the files with further rules were found.
pub open spec fn after_files(collecting: CollectingModel, paths: Seq<files::PathModel>) -> ProgressModel {
    collected(CollectingModel { found: paths.reverse(), ..collecting })
}

/// What comes next after a file of rules was read.
pub open spec fn after_rules(collecting: CollectingModel, rules: Seq<Rule>) -> ProgressModel {
    collected(
        CollectingModel {
            open_files: collecting.open_files.drop_last(),
            rules: collecting.rules + rules,
            ..collecting
        },
    )
}

/// The instance that a configuration holds, as plain values.
pub open spec fn own_of(config: Option<LoadedConfig>) -> Option<(ConfigModel, Seq<SourceModel>)> {
    match config {
        Some(own) => Some((own.config@, sources_of(own.rules@))),
        None => None,
    }
}

/// Whether a path is among others.
pub fn contains_path(paths: &Vec<FilePath>, path: &FilePath) -> (r: bool)
    ensures
        r == is_among(path@, files::paths_of(paths@)),
{
    let ghost models = files::paths_of(paths@);
    let mut i: usize = 0;
    while i < paths.len()
        invariant
            models == files::paths_of(paths@),
            0 <= i <= paths@.len(),
            forall|j: int| 0 <= j < i ==> (#[trigger] models[j]).parts != path@.parts,
        decreases paths@.len() - i,
    {
        assert(models[i as int] == paths@[i as int]@);
        if paths[i].same(path) {
            return true;
        }
        i = i + 1;
    }
    false
}

/// Starts to read the configuration that the program is called with.
pub fn read_config(cli: &Cli) -> (r: Progress)
    ensures
        r.is(started(cli.config@, cli.verbose)),
{
    let loader = Loader { verbose: cli.verbose, visited: Vec::new(), configs: Vec::new(), todo: Vec::new() };
    assert(files::paths_of(loader.visited@) =~= Seq::<files::PathModel>::empty());
    assert(configs_of(loader.configs@) =~= Seq::<ConfigModel>::empty());
    assert(tasks_of(loader.todo@) =~= Seq::<TaskModel>::empty());
    Progress::ReadConfig { path: cli.config.clone(), loader }
}

impl Loader {
    /// The next thing to do.
    fn advance(self) -> (r: Progress)
        ensures
            r.is(advanced(self@)),
    {
        let mut loader: Loader = self;
        let ghost first = loader@;
        while loader.todo.len() > 0
            invariant
                first == self@,
                advanced(loader@) == advanced(first),
            decreases loader.todo@.len(),
        {
            let ghost before = loader@;
            let task: Task = loader.todo.pop().unwrap();
            proof {
                assert(before.todo.last() == task@);
                assert(tasks_of(loader.todo@) =~= before.todo.drop_last());
                assert(loader@ == (LoaderModel { todo: before.todo.drop_last(), ..before }));
            }
            match task {
                Task::Load(path) => {
                    if !contains_path(&loader.visited, &path) {
                        return Progress::ReadConfig { path, loader };
                    }
                },
                Task::Find { source, named } => {
                    return Progress::FindConfigs { source, named, loader };
                },
            }
        }
        assert(loader@.todo.len() == 0);
        Progress::Done(loader.configs)
    }

    fn finish_config(self, path: FilePath, instances: Vec<FilePath>) -> (r: Progress)
        ensures
            r.is(config_done(self@, path@, files::paths_of(instances@))),
    {
        let ghost before = self@;
        let ghost named = files::paths_of(instances@);
        let mut loader: Loader = self;
        let mut rest: Vec<FilePath> = instances;
        let ghost total = rest@.len() as int;
        let ghost all = find_all(path@, named);
        assert(tasks_of(loader.todo@) =~= before.todo + all.take(0));
        assert(files::paths_of(rest@) =~= named.take(total));
        while rest.len() > 0
            invariant
                0 <= rest@.len() <= total,
                total == named.len(),
                all == find_all(path@, named),
                files::paths_of(rest@) == named.take(rest@.len() as int),
                tasks_of(loader.todo@) == before.todo + all.take(total - rest@.len()),
                loader.verbose == before.verbose,
                files::paths_of(loader.visited@) == before.visited,
                configs_of(loader.configs@) == before.configs,
            decreases rest@.len(),
        {
            let ghost left = rest@.len() as int;
            let ghost models = files::paths_of(rest@);
            let ghost done = tasks_of(loader.todo@);
            let one: FilePath = rest.pop().unwrap();
            assert(models[left - 1] == one@);
            assert(files::paths_of(rest@) =~= named.take(left - 1));
            let task = Task::Find { source: path.clone(), named: one };
            loader.todo.push(task);
            proof {
                assert(tasks_of(loader.todo@) =~= done.push(task@));
                assert(task@ == all[total - left]);
                assert(all.take(total - left).push(task@) =~= all.take(total - left + 1));
                assert(tasks_of(loader.todo@) =~= before.todo + all.take(total - left + 1));
            }
        }
        assert(all.take(total) =~= all);
        let ghost visited = files::paths_of(loader.visited@);
        let ghost done = path@;
        loader.visited.push(path);
        assert(files::paths_of(loader.visited@) =~= visited.push(done));
        loader.advance()
    }

    /// Goes on after a configuration was read.
    pub fn config_read(self, path: FilePath, loaded: LoadedConfigFile) -> (r: Progress)
        ensures
            r.is(after_config(self@, path@, own_of(loaded.config), files::paths_of(loaded.instances@))),
    {
        let LoadedConfigFile { config, instances } = loaded;
        match config {
            Some(LoadedConfig { config, rules }) => {
                let entries: Vec<RuleSource> = reversed_sources(rules);
                let collecting = Collecting {
                    loader: self,
                    path,
                    config,
                    instances,
                    entries,
                    found: Vec::new(),
                    open_files: Vec::new(),
                    rules: Vec::new(),
                };
                assert(files::paths_of(collecting.found@) =~= Seq::<files::PathModel>::empty());
                assert(files::paths_of(collecting.open_files@) =~= Seq::<files::PathModel>::empty());
                assert(collecting.rules@ =~= Seq::<Rule>::empty());
                collecting.collect()
            },
            None => self.finish_config(path, instances),
        }
    }

    /// Goes on after the files with further instances were found.
    pub fn configs_found(self, paths: Vec<FilePath>) -> (r: Progress)
        ensures
            r.is(after_configs(self@, files::paths_of(paths@))),
    {
        let ghost before = self@;
        let ghost found = files::paths_of(paths@);
        let mut loader: Loader = self;
        let mut rest: Vec<FilePath> = paths;
        let ghost total = rest@.len() as int;
        let ghost all = load_all(found);
        assert(tasks_of(loader.todo@) =~= before.todo + all.take(0));
        assert(files::paths_of(rest@) =~= found.take(total));
        while rest.len() > 0
            invariant
                0 <= rest@.len() <= total,
                total == found.len(),
                all == load_all(found),
                files::paths_of(rest@) == found.take(rest@.len() as int),
                tasks_of(loader.todo@) == before.todo + all.take(total - rest@.len()),
                loader.verbose == before.verbose,
                files::paths_of(loader.visited@) == before.visited,
                configs_of(loader.configs@) == before.configs,
            decreases rest@.len(),
        {
            let ghost left = rest@.len() as int;
            let ghost models = files::paths_of(rest@);
            let ghost done = tasks_of(loader.todo@);
            let one: FilePath = rest.pop().unwrap();
            assert(models[left - 1] == one@);
            assert(files::paths_of(rest@) =~= found.take(left - 1));
            let task = Task::Load(one);
            loader.todo.push(task);
            proof {
                assert(tasks_of(loader.todo@) =~= done.push(task@));
                assert(task@ == all[total - left]);
                assert(all.take(total - left).push(task@) =~= all.take(total - left + 1));
                assert(tasks_of(loader.todo@) =~= before.todo + all.take(total - left + 1));
            }
        }
        assert(all.take(total) =~= all);
        loader.advance()
    }
}

fn reversed_sources(sources: Vec<RuleSource>) -> (r: Vec<RuleSource>)
    ensures
        sources_of(r@) == sources_of(sources@).reverse(),
{
    let ghost all = sources@;
    let mut rest: Vec<RuleSource> = sources;
    let mut out: Vec<RuleSource> = Vec::new();
    while rest.len() > 0
        invariant
            rest@.len() + out@.len() == all.len(),
            rest@ == all.take(rest@.len() as int),
            forall|i: int| 0 <= i < out@.len() ==> #[trigger] out@[i] == all[all.len() - 1 - i],
        decreases rest@.len(),
    {
        let ghost left = rest@.len() as int;
        let one: RuleSource = rest.pop().unwrap();
        assert(one == all[left - 1]);
        assert(rest@ =~= all.take(left - 1));
        out.push(one);
    }
    assert(sources_of(out@) =~= sources_of(all).reverse());
    out
}

fn reversed_paths(paths: Vec<FilePath>) -> (r: Vec<FilePath>)
    ensures
        files::paths_of(r@) == files::paths_of(paths@).reverse(),
{
    let ghost all = paths@;
    let mut rest: Vec<FilePath> = paths;
    let mut out: Vec<FilePath> = Vec::new();
    while rest.len() > 0
        invariant
            rest@.len() + out@.len() == all.len(),
            rest@ == all.take(rest@.len() as int),
            forall|i: int| 0 <= i < out@.len() ==> #[trigger] out@[i] == all[all.len() - 1 - i],
        decreases rest@.len(),
    {
        let ghost left = rest@.len() as int;
        let one: FilePath = rest.pop().unwrap();
        assert(one == all[left - 1]);
        assert(rest@ =~= all.take(left - 1));
        out.push(one);
    }
    assert(files::paths_of(out@) =~= files::paths_of(all).reverse());
    out
}

impl Collecting {
    /// The next thing to do for the rules of an instance.
    fn collect(self) -> (r: Progress)
        ensures
            r.is(collected(self@)),
    {
        let mut c: Collecting = self;
        let ghost first = c@;
        if c.found.len() > 0 {
            let path: FilePath = c.found.pop().unwrap();
            assert(first.found.last() == path@);
            assert(files::paths_of(c.found@) =~= first.found.drop_last());
            if contains_path(&c.open_files, &path) {
                return Progress::Fail(ConfigError::RuleCycle(path));
            }
            let open: FilePath = path.clone();
            c.open_files.push(open);
            assert(files::paths_of(c.open_files@) =~= first.open_files.push(path@));
            assert(c@ == (CollectingModel {
                found: first.found.drop_last(),
                open_files: first.open_files.push(path@),
                ..first
            }));
            return Progress::ReadRules { path, collecting: c };
        }
        assert(first.found.len() == 0);
        while c.entries.len() > 0
            invariant
                c.found@.len() == 0,
                first == self@,
                collected(c@) == collected(first),
            decreases c.entries@.len(),
        {
            let ghost before = c@;
            let entry: RuleSource = c.entries.pop().unwrap();
            proof {
                assert(before.found.len() == 0);
                assert(before.entries.last() == entry@);
                assert(sources_of(c.entries@) =~= before.entries.drop_last());
            }
            match entry {
                RuleSource::Inline(rule) => {
                    c.rules.push(rule);
                    assert(c@ == (CollectingModel {
                        entries: before.entries.drop_last(),
                        rules: before.rules.push(rule),
                        ..before
                    }));
                },
                RuleSource::File(named) => {
                    assert(c@ == (CollectingModel { entries: before.entries.drop_last(), ..before }));
                    return Progress::FindRules { source: c.path.clone(), named, collecting: c };
                },
            }
        }
        let ghost last = c@;
        assert(last.found.len() == 0 && last.entries.len() == 0);
        let Collecting { loader, path, config, instances, entries: _, found: _, open_files: _, rules } = c;
        let mut loader: Loader = loader;
        let done = Config {
            listen: config.listen,
            default_upstream: config.default_upstream,
            rules,
            log: config.log || loader.verbose,
        };
        assert(done@ =~= finished(last.config, last.rules, last.loader.verbose));
        loader.configs.push(done);
        assert(configs_of(loader.configs@) =~= last.loader.configs.push(done@));
        loader.finish_config(path, instances)
    }

    /// Goes on after the files with further rules were found.
    pub fn rules_found(self, paths: Vec<FilePath>) -> (r: Progress)
        ensures
            r.is(after_files(self@, files::paths_of(paths@))),
    {
        let mut c: Collecting = self;
        c.found = reversed_paths(paths);
        c.collect()
    }

    /// Goes on after a file of rules was read.
    pub fn rules_read(self, rules: Vec<Rule>) -> (r: Progress)
        requires
            self.open_files@.len() > 0,
        ensures
            r.is(after_rules(self@, rules@)),
    {
        let mut c: Collecting = self;
        let ghost before = c@;
        let mut more: Vec<Rule> = rules;
        c.rules.append(&mut more);
        let _closed = c.open_files.pop();
        assert(files::paths_of(c.open_files@) =~= before.open_files.drop_last());
        assert(c@ == (CollectingModel {
            open_files: before.open_files.drop_last(),
            rules: before.rules + rules@,
            ..before
        }));
        c.collect()
    }
}

/// A configuration that was read is not read again, and is remembered as read.
pub proof fn law_no_config_is_read_twice(
    loader: LoaderModel,
    path: files::PathModel,
    instances: Seq<files::PathModel>,
)
    ensures
        advanced(loader) matches ProgressModel::ReadConfig { path: next, loader: l } ==> !is_among(next, loader.visited)
            && l.visited == loader.visited,
        config_done(loader, path, instances) matches ProgressModel::ReadConfig { path: next, loader: l }
            ==> next.parts != path.parts && is_among(path, l.visited) && !is_among(next, loader.visited),
{
    lemma_advanced(loader);
    let later = LoaderModel {
        visited: loader.visited.push(path),
        todo: loader.todo + find_all(path, instances),
        ..loader
    };
    lemma_advanced(later);
    assert(later.visited[loader.visited.len() as int] == path);
    assert forall|next: files::PathModel| is_among(next, loader.visited) implies is_among(next, later.visited) by {
        let i = choose|i: int| 0 <= i < loader.visited.len() && (#[trigger] loader.visited[i]).parts == next.parts;
        assert(later.visited[i].parts == next.parts);
    }
}

proof fn lemma_advanced(loader: LoaderModel)
    ensures
        advanced(loader) matches ProgressModel::ReadConfig { path, loader: l } ==> !is_among(path, loader.visited)
            && l.visited == loader.visited,
        !(advanced(loader) is FindRules) && !(advanced(loader) is ReadRules) && !(advanced(loader) is Cycle),
    decreases loader.todo.len(),
{
    if loader.todo.len() > 0 {
        lemma_advanced(LoaderModel { todo: loader.todo.drop_last(), ..loader });
    }
}

/// The rules in some files, in the order of the files.
pub open spec fn rules_in(paths: Seq<files::PathModel>, content: spec_fn(files::PathModel) -> Seq<Rule>) -> Seq<Rule>
    decreases paths.len(),
{
    if paths.len() == 0 {
        Seq::empty()
    } else {
        content(paths[0]) + rules_in(paths.drop_first(), content)
    }
}

/// The rules that entries stand for, in the order of the entries, when a named file stands for the
/// files `found` and these hold the rules `content`.
pub open spec fn expanded_rules(
    entries: Seq<SourceModel>,
    found: spec_fn(files::PathModel) -> Seq<files::PathModel>,
    content: spec_fn(files::PathModel) -> Seq<Rule>,
) -> Seq<Rule>
    decreases entries.len(),
{
    if entries.len() == 0 {
        Seq::empty()
    } else {
        (match entries[0] {
            SourceModel::Inline(rule) => seq![rule],
            SourceModel::File(named) => rules_in(found(named), content),
        }) + expanded_rules(entries.drop_first(), found, content)
    }
}

/// What is in the files: what each configuration holds, which files one named in another stands
/// for, and the rules in each file of rules.
pub struct Disk {
    pub own: spec_fn(files::PathModel) -> Option<(ConfigModel, Seq<SourceModel>)>,
    pub instances: spec_fn(files::PathModel) -> Seq<files::PathModel>,
    pub found: spec_fn(files::PathModel, files::PathModel) -> Seq<files::PathModel>,
    pub content: spec_fn(files::PathModel) -> Seq<Rule>,
}

/// What comes next once what is asked for was looked up.
pub open spec fn step(progress: ProgressModel, disk: Disk) -> ProgressModel {
    match progress {
        ProgressModel::ReadConfig { path, loader } => after_config(
            loader,
            path,
            (disk.own)(path),
            (disk.instances)(path),
        ),
        ProgressModel::FindConfigs { source, named, loader } => after_configs(loader, (disk.found)(source, named)),
        ProgressModel::FindRules { source, named, collecting } => after_files(
            collecting,
            (disk.found)(source, named),
        ),
        ProgressModel::ReadRules { path, collecting } => after_rules(collecting, (disk.content)(path)),
        ProgressModel::Done(_) => progress,
        ProgressModel::Cycle(_) => progress,
    }
}

/// What comes next once that many things were looked up.
pub open spec fn steps(progress: ProgressModel, disk: Disk, n: nat) -> ProgressModel
    decreases n,
{
    if n == 0 {
        progress
    } else {
        steps(step(progress, disk), disk, (n - 1) as nat)
    }
}

/// Whether one thing leads to another.
pub open spec fn leads_to(from: ProgressModel, disk: Disk, to: ProgressModel) -> bool {
    exists|n: nat| #[trigger] steps(from, disk, n) == to
}

proof fn lemma_steps_add(from: ProgressModel, disk: Disk, m: nat, n: nat)
    ensures
        steps(from, disk, m + n) == steps(steps(from, disk, m), disk, n),
    decreases m,
{
    if m > 0 {
        lemma_steps_add(step(from, disk), disk, (m - 1) as nat, n);
        assert((m + n - 1) as nat == (m - 1) as nat + n);
    }
}

proof fn lemma_leads_on(a: ProgressModel, disk: Disk, b: ProgressModel, c: ProgressModel)
    requires
        leads_to(a, disk, b),
        leads_to(b, disk, c),
    ensures
        leads_to(a, disk, c),
{
    let m = choose|m: nat| #[trigger] steps(a, disk, m) == b;
    let n = choose|n: nat| #[trigger] steps(b, disk, n) == c;
    lemma_steps_add(a, disk, m, n);
    assert(steps(a, disk, m + n) == c);
}

proof fn lemma_leads_to_itself(a: ProgressModel, disk: Disk)
    ensures
        leads_to(a, disk, a),
{
    assert(steps(a, disk, 0) == a);
}

proof fn lemma_step_leads(a: ProgressModel, disk: Disk, b: ProgressModel)
    requires
        leads_to(step(a, disk), disk, b),
    ensures
        leads_to(a, disk, b),
{
    let n = choose|n: nat| #[trigger] steps(step(a, disk), disk, n) == b;
    assert(steps(a, disk, n + 1) == b);
}

/// Rules come in the order of the entries that they stand for, whether these hold them or name
/// files that do, and no file is found to lead to itself.
pub proof fn law_rules_are_collected_in_order(c: CollectingModel, disk: Disk)
    requires
        c.open_files.len() == 0,
    ensures
        leads_to(
            collected(c),
            disk,
            config_done(
                LoaderModel {
                    configs: c.loader.configs.push(
                        finished(
                            c.config,
                            c.rules + rules_in(c.found.reverse(), disk.content) + expanded_rules(
                                c.entries.reverse(),
                                |named: files::PathModel| (disk.found)(c.path, named),
                                disk.content,
                            ),
                            c.loader.verbose,
                        ),
                    ),
                    ..c.loader
                },
                c.path,
                c.instances,
            ),
        ),
    decreases c.entries.len(), c.found.len(),
{
    let found = |named: files::PathModel| (disk.found)(c.path, named);
    let content = disk.content;
    let all = c.rules + rules_in(c.found.reverse(), content) + expanded_rules(c.entries.reverse(), found, content);
    let end = config_done(
        LoaderModel { configs: c.loader.configs.push(finished(c.config, all, c.loader.verbose)), ..c.loader },
        c.path,
        c.instances,
    );
    if c.found.len() > 0 {
        let last = c.found.last();
        assert(!is_among(last, c.open_files));
        let next = CollectingModel {
            found: c.found.drop_last(),
            open_files: c.open_files.push(last).drop_last(),
            rules: c.rules + content(last),
            ..c
        };
        assert(next.open_files.len() == 0);
        law_rules_are_collected_in_order(next, disk);
        assert(c.found.reverse()[0] == last);
        assert(c.found.reverse().drop_first() =~= next.found.reverse());
        assert(next.rules + rules_in(next.found.reverse(), content) + expanded_rules(
            c.entries.reverse(),
            found,
            content,
        ) =~= all);
        assert(step(collected(c), disk) == collected(next));
        lemma_step_leads(collected(c), disk, end);
    } else if c.entries.len() == 0 {
        assert(c.found.reverse().len() == 0);
        assert(c.entries.reverse().len() == 0);
        assert(all =~= c.rules);
        assert(collected(c) == end);
        lemma_leads_to_itself(end, disk);
    } else {
        let rest = c.entries.drop_last();
        assert(c.entries.reverse()[0] == c.entries.last());
        assert(c.entries.reverse().drop_first() =~= rest.reverse());
        assert(c.found.reverse() =~= c.found);
        match c.entries.last() {
            SourceModel::Inline(rule) => {
                let next = CollectingModel { entries: rest, rules: c.rules.push(rule), ..c };
                law_rules_are_collected_in_order(next, disk);
                assert(next.rules + rules_in(c.found.reverse(), content) + expanded_rules(
                    rest.reverse(),
                    found,
                    content,
                ) =~= all);
                assert(collected(c) == collected(next));
            },
            SourceModel::File(named) => {
                let next = CollectingModel { entries: rest, found: (disk.found)(c.path, named).reverse(), ..c };
                law_rules_are_collected_in_order(next, disk);
                assert(found(named).reverse().reverse() =~= found(named));
                assert(c.rules + rules_in(found(named), content) + expanded_rules(rest.reverse(), found, content)
                    =~= all);
                assert(step(collected(c), disk) == collected(next));
                lemma_step_leads(collected(c), disk, end);
            },
        }
    }
}

/// The configurations that were read and the instances in them, as they come along.
#[verifier::ext_equal]
pub struct Walk {
    pub visited: Seq<files::PathModel>,
    pub configs: Seq<ConfigModel>,
}

/// A configuration is read: the instance that it holds comes next.
pub open spec fn opened(disk: Disk, verbose: bool, path: files::PathModel, walk: Walk) -> Walk {
    Walk {
        visited: walk.visited.push(path),
        configs: match (disk.own)(path) {
            Some((config, entries)) => walk.configs.push(
                finished(
                    config,
                    expanded_rules(entries, |named: files::PathModel| (disk.found)(path, named), disk.content),
                    verbose,
                ),
            ),
            None => walk.configs,
        },
    }
}

/// Reads a configuration, unless that was done, and then all that it names, no deeper than
/// `depth`.
pub open spec fn walk_path(disk: Disk, verbose: bool, path: files::PathModel, walk: Walk, depth: nat) -> Option<Walk>
    decreases depth, 0nat, 0nat,
{
    if is_among(path, walk.visited) {
        Some(walk)
    } else if depth == 0 {
        None
    } else {
        walk_named(
            disk,
            verbose,
            path,
            (disk.instances)(path),
            opened(disk, verbose, path, walk),
            (depth - 1) as nat,
        )
    }
}

/// Reads configurations one after the other.
pub open spec fn walk_paths(
    disk: Disk,
    verbose: bool,
    paths: Seq<files::PathModel>,
    walk: Walk,
    depth: nat,
) -> Option<Walk>
    decreases depth, 1nat, paths.len(),
{
    if paths.len() == 0 {
        Some(walk)
    } else {
        match walk_path(disk, verbose, paths[0], walk, depth) {
            Some(next) => walk_paths(disk, verbose, paths.drop_first(), next, depth),
            None => None,
        }
    }
}

/// Reads the configurations that are named in another one, one after the other.
pub open spec fn walk_named(
    disk: Disk,
    verbose: bool,
    source: files::PathModel,
    named: Seq<files::PathModel>,
    walk: Walk,
    depth: nat,
) -> Option<Walk>
    decreases depth, 2nat, named.len(),
{
    if named.len() == 0 {
        Some(walk)
    } else {
        match walk_paths(disk, verbose, (disk.found)(source, named[0]), walk, depth) {
            Some(next) => walk_named(disk, verbose, source, named.drop_first(), next, depth),
            None => None,
        }
    }
}

/// What comes next after a walk, with this left to do.
pub open spec fn at(verbose: bool, walk: Walk, todo: Seq<TaskModel>) -> ProgressModel {
    advanced(LoaderModel { verbose, visited: walk.visited, configs: walk.configs, todo })
}

proof fn lemma_walk_path(
    disk: Disk,
    verbose: bool,
    path: files::PathModel,
    walk: Walk,
    depth: nat,
    todo: Seq<TaskModel>,
)
    requires
        walk_path(disk, verbose, path, walk, depth) is Some,
    ensures
        leads_to(
            at(verbose, walk, todo.push(TaskModel::Load(path))),
            disk,
            at(verbose, walk_path(disk, verbose, path, walk, depth)->0, todo),
        ),
    decreases depth, 0nat, 0nat,
{
    let from = at(verbose, walk, todo.push(TaskModel::Load(path)));
    let end = at(verbose, walk_path(disk, verbose, path, walk, depth)->0, todo);
    assert(todo.push(TaskModel::Load(path)).drop_last() =~= todo);
    if is_among(path, walk.visited) {
        assert(from == end);
        lemma_leads_to_itself(end, disk);
    } else {
        let instances = (disk.instances)(path);
        let next = opened(disk, verbose, path, walk);
        let loader = LoaderModel { verbose, visited: walk.visited, configs: walk.configs, todo };
        assert(from == (ProgressModel::ReadConfig { path, loader }));
        let read = step(from, disk);
        let mid = at(verbose, next, todo + find_all(path, instances));
        match (disk.own)(path) {
            Some((config, entries)) => {
                let c = CollectingModel {
                    loader,
                    path,
                    config,
                    instances,
                    entries: entries.reverse(),
                    found: Seq::empty(),
                    open_files: Seq::empty(),
                    rules: Seq::empty(),
                };
                let found = |named: files::PathModel| (disk.found)(path, named);
                law_rules_are_collected_in_order(c, disk);
                assert(c.entries.reverse() =~= entries);
                assert(c.found.reverse().len() == 0);
                assert(c.rules + rules_in(c.found.reverse(), disk.content) + expanded_rules(
                    entries,
                    found,
                    disk.content,
                ) =~= expanded_rules(entries, found, disk.content));
                assert(leads_to(read, disk, mid));
            },
            None => {
                assert(read == mid);
                lemma_leads_to_itself(mid, disk);
            },
        }
        lemma_step_leads(from, disk, mid);
        lemma_walk_named(disk, verbose, path, instances, next, (depth - 1) as nat, todo);
        lemma_leads_on(from, disk, mid, end);
    }
}

proof fn lemma_walk_paths(
    disk: Disk,
    verbose: bool,
    paths: Seq<files::PathModel>,
    walk: Walk,
    depth: nat,
    todo: Seq<TaskModel>,
)
    requires
        walk_paths(disk, verbose, paths, walk, depth) is Some,
    ensures
        leads_to(
            at(verbose, walk, todo + load_all(paths)),
            disk,
            at(verbose, walk_paths(disk, verbose, paths, walk, depth)->0, todo),
        ),
    decreases depth, 1nat, paths.len(),
{
    let from = at(verbose, walk, todo + load_all(paths));
    let end = at(verbose, walk_paths(disk, verbose, paths, walk, depth)->0, todo);
    if paths.len() == 0 {
        assert(todo + load_all(paths) =~= todo);
        lemma_leads_to_itself(end, disk);
    } else {
        let rest = paths.drop_first();
        let later = todo + load_all(rest);
        assert(todo + load_all(paths) =~= later.push(TaskModel::Load(paths[0])));
        let next = walk_path(disk, verbose, paths[0], walk, depth)->0;
        lemma_walk_path(disk, verbose, paths[0], walk, depth, later);
        lemma_walk_paths(disk, verbose, rest, next, depth, todo);
        lemma_leads_on(from, disk, at(verbose, next, later), end);
    }
}

proof fn lemma_walk_named(
    disk: Disk,
    verbose: bool,
    source: files::PathModel,
    named: Seq<files::PathModel>,
    walk: Walk,
    depth: nat,
    todo: Seq<TaskModel>,
)
    requires
        walk_named(disk, verbose, source, named, walk, depth) is Some,
    ensures
        leads_to(
            at(verbose, walk, todo + find_all(source, named)),
            disk,
            at(verbose, walk_named(disk, verbose, source, named, walk, depth)->0, todo),
        ),
    decreases depth, 2nat, named.len(),
{
    let from = at(verbose, walk, todo + find_all(source, named));
    let end = at(verbose, walk_named(disk, verbose, source, named, walk, depth)->0, todo);
    if named.len() == 0 {
        assert(todo + find_all(source, named) =~= todo);
        lemma_leads_to_itself(end, disk);
    } else {
        let rest = named.drop_first();
        let later = todo + find_all(source, rest);
        let task = TaskModel::Find { source, named: named[0] };
        assert(todo + find_all(source, named) =~= later.push(task));
        assert(later.push(task).drop_last() =~= later);
        let found = (disk.found)(source, named[0]);
        let next = walk_paths(disk, verbose, found, walk, depth)->0;
        assert(step(from, disk) == at(verbose, walk, later + load_all(found)));
        lemma_walk_paths(disk, verbose, found, walk, depth, later);
        lemma_step_leads(from, disk, at(verbose, next, later));
        lemma_walk_named(disk, verbose, source, rest, next, depth, todo);
        lemma_leads_on(from, disk, at(verbose, next, later), end);
    }
}

/// Reading ends with the instances in the order of a walk: a configuration comes before those that
/// it names, which come in the order of their names, each with all that it names in turn, and none
/// is read twice.
pub proof fn law_configs_are_read_depth_first(disk: Disk, verbose: bool, path: files::PathModel, depth: nat)
    requires
        walk_path(disk, verbose, path, Walk { visited: Seq::empty(), configs: Seq::empty() }, depth) is Some,
    ensures
        leads_to(
            started(path, verbose),
            disk,
            ProgressModel::Done(
                walk_path(disk, verbose, path, Walk { visited: Seq::empty(), configs: Seq::empty() }, depth)->0.configs,
            ),
        ),
{
    let none = Seq::<TaskModel>::empty();
    let start = Walk { visited: Seq::empty(), configs: Seq::empty() };
    lemma_walk_path(disk, verbose, path, start, depth, none);
    assert(none.push(TaskModel::Load(path)).drop_last() =~= none);
    assert(!is_among(path, start.visited));
}

/// An instance keeps where it listens and whom it asks, has the rules that were collected for it,
/// and logs where it says so itself or the program is told so.
pub proof fn law_instances_keep_their_settings(config: ConfigModel, rules: Seq<Rule>, verbose: bool)
    ensures
        finished(config, rules, verbose).listen == config.listen,
        finished(config, rules, verbose).default_upstream == config.default_upstream,
        finished(config, rules, verbose).rules == rules,
        finished(config, rules, verbose).log <==> config.log || verbose,
{
}

/// A path is among others where it has the same parts as one of them, however it is written. A file
/// of rules that is being read already is reported as leading to itself.
pub proof fn law_open_files_are_not_read_again(c: CollectingModel, i: int)
    requires
        c.found.len() > 0,
        0 <= i < c.open_files.len(),
        c.open_files[i].parts == c.found.last().parts,
    ensures
        is_among(c.found.last(), c.open_files),
        collected(c) == ProgressModel::Cycle(c.found.last()),
{
}

/// Files of rules are read in the order that they are found in, and what they hold comes behind
/// what was collected before.
pub proof fn law_found_files_are_read_first(c: CollectingModel, rules: Seq<Rule>)
    requires
        c.found.len() > 0,
        forall|i: int| 0 <= i < c.open_files.len() ==> (#[trigger] c.open_files[i]).parts != c.found.last().parts,
    ensures
        collected(c) matches ProgressModel::ReadRules { path, collecting } && {
            &&& path == c.found.last()
            &&& after_rules(collecting, rules) == collected(
                CollectingModel { found: c.found.drop_last(), rules: c.rules + rules, ..c },
            )
        },
{
    assert(c.open_files.push(c.found.last()).drop_last() =~= c.open_files);
}

/// Nothing of an instance is left out of its plain values.
pub proof fn law_plain_values_hold_all(config: Config, entry: RuleSource, rule: Rule, file: FilePath)
    ensures
        config@.listen == config.listen@,
        config@.default_upstream == config.default_upstream@,
        config@.rules == config.rules@,
        config@.log == config.log,
        entry == RuleSource::Inline(rule) ==> entry@ == SourceModel::Inline(rule),
        entry == RuleSource::File(file) ==> entry@ == SourceModel::File(file@),
        file@.octets == file.octets@,
        file@.parts.len() == file.parts@.len(),
        forall|i: int| 0 <= i < file.parts@.len() ==> #[trigger] file@.parts[i] == file.parts@[i]@,
{
}

} // verus!

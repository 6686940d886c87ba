//! Where everything lies: the library, the caches and the databases.

use vstd::prelude::*;

use crate::text::{chars, copy, empty, trim, trimmed, view_opt, views};
use crate::APP_ID;

verus! {

pub const LIBRARY_VAR: &'static str = "PHOTOMANAGER_LIBRARY";

/// A directory that already holds the GeoNames dumps, so nothing has to be downloaded.
pub const DUMPS_VAR: &'static str = "PHOTOMANAGER_GEONAMES";

pub const DEFAULT_LIBRARY: &'static str = "Nextcloud/Photos";

// ---- Paths as text -----------------------------------------------------------------------------

pub open spec fn absolute(path: Seq<char>) -> bool {
    path.len() > 0 && path[0] == '/'
}

/// A path below another: an absolute one is itself, and a separator stands between the two unless
/// there is one already.
pub open spec fn below(path: Seq<char>, more: Seq<char>) -> Seq<char> {
    if absolute(more) || path.len() == 0 {
        more
    } else if path.last() == '/' {
        path + more
    } else {
        path + "/"@ + more
    }
}

pub fn is_absolute(path: &str) -> (yes: bool)
    ensures
        yes == absolute(path@),
{
    let list = chars(path);
    list.len() > 0 && list[0] == '/'
}

/// A path below another.
pub fn join_path(path: &str, more: &str) -> (whole: String)
    ensures
        whole@ == below(path@, more@),
{
    let list = chars(path);
    if is_absolute(more) || list.len() == 0 {
        copy(more)
    } else if list[list.len() - 1] == '/' {
        copy(path).concat(more)
    } else {
        copy(path).concat("/").concat(more)
    }
}

/// What lies below a path begins with it, and is absolute where the path is.
pub proof fn what_is_below_begins_with_it(path: Seq<char>, more: Seq<char>)
    requires
        !absolute(more),
    ensures
        absolute(path) ==> absolute(below(path, more)),
        crate::text::starts(below(path, more), path),
{
    let whole = below(path, more);
    assert(whole.take(path.len() as int) =~= path);
}

// ---- Where everything lies ---------------------------------------------------------------------

#[derive(Debug, Clone, PartialEq, Eq)]
pub struct Paths {
    pub cache: String,
    pub data: String,
    pub library: String,
    pub dumps: Option<String>,
}

#[verifier::ext_equal]
pub struct PathsView {
    pub cache: Seq<char>,
    pub data: Seq<char>,
    pub library: Seq<char>,
    pub dumps: Option<Seq<char>>,
}

impl View for Paths {
    type V = PathsView;

    open spec fn view(&self) -> PathsView {
        PathsView {
            cache: self.cache@,
            data: self.data@,
            library: self.library@,
            dumps: view_opt(self.dumps),
        }
    }
}

#[derive(Debug, Clone, PartialEq, Eq)]
pub enum PathsError {
    NoHome,
    RelativeLibrary(String),
    LibraryMissing(String),
}

#[verifier::ext_equal]
pub enum PathsErrorView {
    NoHome,
    RelativeLibrary(Seq<char>),
    LibraryMissing(Seq<char>),
}

impl View for PathsError {
    type V = PathsErrorView;

    open spec fn view(&self) -> PathsErrorView {
        match self {
            PathsError::NoHome => PathsErrorView::NoHome,
            PathsError::RelativeLibrary(path) => PathsErrorView::RelativeLibrary(path@),
            PathsError::LibraryMissing(path) => PathsErrorView::LibraryMissing(path@),
        }
    }
}

impl PathsError {
    pub fn to_string(&self) -> (why: String)
        ensures
            why@ == (match self@ {
                PathsErrorView::NoHome => "no HOME in the environment"@,
                PathsErrorView::RelativeLibrary(path) => "PHOTOMANAGER_LIBRARY"@
                    + " must be an absolute path, got "@ + path,
                PathsErrorView::LibraryMissing(path) => "photo library not found at "@ + path,
            }),
    {
        match self {
            PathsError::NoHome => copy("no HOME in the environment"),
            PathsError::RelativeLibrary(path) => copy("PHOTOMANAGER_LIBRARY").concat(
                " must be an absolute path, got ",
            ).concat(path),
            PathsError::LibraryMissing(path) => copy("photo library not found at ").concat(path),
        }
    }
}

/// The variables of the environment that decide where everything lies.
#[verifier::ext_equal]
pub struct Variables {
    pub home: Option<Seq<char>>,
    pub library: Option<Seq<char>>,
    pub cache: Option<Seq<char>>,
    pub data: Option<Seq<char>>,
    pub dumps: Option<Seq<char>>,
}

/// A variable that says something.
pub open spec fn filled(value: Option<Seq<char>>) -> Option<Seq<char>> {
    match value {
        Some(text) => if trimmed(text).len() > 0 {
            Some(text)
        } else {
            None
        },
        None => None,
    }
}

/// A variable that is an absolute path.
pub open spec fn placed(value: Option<Seq<char>>) -> Option<Seq<char>> {
    match filled(value) {
        Some(path) => if absolute(path) {
            Some(path)
        } else {
            None
        },
        None => None,
    }
}

/// The directory a variable says, or one below home.
pub open spec fn base(value: Option<Seq<char>>, home: Seq<char>, fallback: Seq<char>) -> Seq<char> {
    match placed(value) {
        Some(path) => path,
        None => below(home, fallback),
    }
}

/// Where the library is to be.
pub open spec fn library_of(variables: Variables) -> Result<Seq<char>, PathsErrorView> {
    match filled(variables.home) {
        None => Err(PathsErrorView::NoHome),
        Some(home) => match filled(variables.library) {
            None => Ok(below(home, DEFAULT_LIBRARY@)),
            Some(path) => if absolute(path) {
                Ok(path)
            } else {
                Err(PathsErrorView::RelativeLibrary(path))
            },
        },
    }
}

/// Where everything lies. Whether the library is there is `there`.
pub open spec fn resolved(variables: Variables, there: bool) -> Result<PathsView, PathsErrorView> {
    match library_of(variables) {
        Err(error) => Err(error),
        Ok(library) => if !there {
            Err(PathsErrorView::LibraryMissing(library))
        } else {
            let home = filled(variables.home)->0;
            Ok(
                PathsView {
                    cache: below(base(variables.cache, home, ".cache"@), APP_ID@),
                    data: below(base(variables.data, home, ".local/share"@), APP_ID@),
                    library,
                    dumps: placed(variables.dumps),
                },
            )
        },
    }
}

pub open spec fn resolution(paths: Result<Paths, PathsError>) -> Result<PathsView, PathsErrorView> {
    match paths {
        Ok(paths) => Ok(paths@),
        Err(error) => Err(error@),
    }
}

/// Whether these are the variables that an environment gave.
pub open spec fn given<V: Fn(&str) -> Option<String>>(var: V, variables: Variables) -> bool {
    &&& gave(var, "HOME", variables.home)
    &&& gave(var, LIBRARY_VAR, variables.library)
    &&& gave(var, "XDG_CACHE_HOME", variables.cache)
    &&& gave(var, "XDG_DATA_HOME", variables.data)
    &&& gave(var, DUMPS_VAR, variables.dumps)
}

pub open spec fn gave<V: Fn(&str) -> Option<String>>(
    var: V,
    key: &str,
    value: Option<Seq<char>>,
) -> bool {
    exists|text: Option<String>| #[trigger]
        call_ensures(var, (key,), text) && view_opt(text) == value
}

fn some_text(value: Option<String>) -> (text: Option<String>)
    ensures
        view_opt(text) == filled(view_opt(value)),
{
    match value {
        Some(text) => {
            if empty(&trim(&text)) {
                None
            } else {
                Some(text)
            }
        },
        None => None,
    }
}

fn some_path(value: Option<String>) -> (path: Option<String>)
    ensures
        view_opt(path) == placed(view_opt(value)),
{
    match some_text(value) {
        Some(path) => {
            if is_absolute(&path) {
                Some(path)
            } else {
                None
            }
        },
        None => None,
    }
}

fn base_of(value: Option<String>, home: &str, fallback: &str) -> (dir: String)
    ensures
        dir@ == base(view_opt(value), home@, fallback@),
{
    match some_path(value) {
        Some(path) => path,
        None => join_path(home, fallback),
    }
}

impl Paths {
    /// Where everything lies for a development build, which refuses a library that is not there.
    pub fn resolve<V, E>(var: V, library_exists: E) -> (paths: Result<Paths, PathsError>) where
        V: Fn(&str) -> Option<String>,
        E: Fn(&str) -> bool,

        requires
            forall|key: &str| #[trigger] call_requires(var, (key,)),
            forall|path: &str| #[trigger] call_requires(library_exists, (path,)),
        ensures
            exists|variables: Variables, there: bool|
                {
                    &&& gave(var, "HOME", variables.home)
                    &&& #[trigger] resolved(variables, there) == resolution(paths)
                    &&& library_of(variables) is Ok ==> {
                        &&& gave(var, LIBRARY_VAR, variables.library)
                        &&& exists|path: &str| #[trigger]
                            call_ensures(library_exists, (path,), there) && path@ == library_of(
                                variables,
                            )->Ok_0
                        &&& there ==> given(var, variables)
                    }
                    &&& library_of(variables) matches Err(PathsErrorView::RelativeLibrary(_))
                        ==> gave(var, LIBRARY_VAR, variables.library)
                },
    {
        Paths::resolve_for(true, var, library_exists)
    }

    /// Where everything lies, by the variables of the environment. Whether the library is there
    /// is asked once it is known where it has to be, and only for a development build: a release
    /// takes it to be there, as it may start before its disk is mounted.
    pub fn resolve_for<V, E>(development: bool, var: V, library_exists: E) -> (paths: Result<
        Paths,
        PathsError,
    >) where V: Fn(&str) -> Option<String>, E: Fn(&str) -> bool
        requires
            forall|key: &str| #[trigger] call_requires(var, (key,)),
            forall|path: &str| #[trigger] call_requires(library_exists, (path,)),
        ensures
            exists|variables: Variables, there: bool|
                {
                    &&& gave(var, "HOME", variables.home)
                    &&& #[trigger] resolved(variables, there) == resolution(paths)
                    &&& library_of(variables) is Ok ==> {
                        &&& gave(var, LIBRARY_VAR, variables.library)
                        &&& !development ==> there
                        &&& development ==> exists|path: &str| #[trigger]
                            call_ensures(library_exists, (path,), there) && path@ == library_of(
                                variables,
                            )->Ok_0
                        &&& there ==> given(var, variables)
                    }
                    &&& library_of(variables) matches Err(PathsErrorView::RelativeLibrary(_))
                        ==> gave(var, LIBRARY_VAR, variables.library)
                },
    {
        let ghost nothing = Variables {
            home: None,
            library: None,
            cache: None,
            data: None,
            dumps: None,
        };
        let said = var("HOME");
        let ghost home_said = view_opt(said);
        assert(gave(var, "HOME", home_said)) by {
            assert(call_ensures(var, ("HOME",), said));
        }
        let ghost at_home = Variables { home: home_said, ..nothing };
        let home = match some_text(said) {
            Some(home) => home,
            None => {
                assert(resolved(at_home, false) == resolution(Err(PathsError::NoHome)));
                return Err(PathsError::NoHome);
            },
        };
        let said = var(LIBRARY_VAR);
        let ghost library_said = view_opt(said);
        assert(gave(var, LIBRARY_VAR, library_said)) by {
            assert(call_ensures(var, (LIBRARY_VAR,), said));
        }
        let ghost with_library = Variables { library: library_said, ..at_home };
        let library = match some_text(said) {
            Some(path) => {
                if !is_absolute(&path) {
                    let wrong = Err(PathsError::RelativeLibrary(path));
                    assert(resolved(with_library, false) == resolution(wrong));
                    return wrong;
                }
                path
            },
            None => join_path(&home, DEFAULT_LIBRARY),
        };
        assert(library_of(with_library) == Ok::<Seq<char>, PathsErrorView>(library@));
        let there = if development {
            library_exists(&library)
        } else {
            true
        };
        assert(development ==> exists|path: &str| #[trigger]
            call_ensures(library_exists, (path,), there) && path@ == library@);
        if !there {
            let missing = Err(PathsError::LibraryMissing(library));
            assert(resolved(with_library, false) == resolution(missing));
            return missing;
        }
        let cache_said = var("XDG_CACHE_HOME");
        let data_said = var("XDG_DATA_HOME");
        let dumps_said = var(DUMPS_VAR);
        let ghost all = Variables {
            cache: view_opt(cache_said),
            data: view_opt(data_said),
            dumps: view_opt(dumps_said),
            ..with_library
        };
        assert(given(var, all)) by {
            assert(call_ensures(var, ("XDG_CACHE_HOME",), cache_said));
            assert(call_ensures(var, ("XDG_DATA_HOME",), data_said));
            assert(call_ensures(var, (DUMPS_VAR,), dumps_said));
        }
        let paths = Ok(
            Paths {
                cache: join_path(&base_of(cache_said, &home, ".cache"), APP_ID),
                data: join_path(&base_of(data_said, &home, ".local/share"), APP_ID),
                library,
                dumps: some_path(dumps_said),
            },
        );
        assert(library_of(all) == library_of(with_library));
        assert(resolved(all, true) =~= resolution(paths));
        paths
    }

    pub fn library(&self) -> (path: &String)
        ensures
            path@ == self@.library,
    {
        &self.library
    }

    pub fn cache_dir(&self) -> (path: &String)
        ensures
            path@ == self@.cache,
    {
        &self.cache
    }

    pub fn data_dir(&self) -> (path: &String)
        ensures
            path@ == self@.data,
    {
        &self.data
    }

    pub fn thumbs_dir(&self) -> (path: String)
        ensures
            path@ == below(self@.cache, "thumbs"@),
    {
        join_path(&self.cache, "thumbs")
    }

    /// Where the downloaded GeoNames dumps are kept.
    pub fn dumps_dir(&self) -> (path: String)
        ensures
            path@ == below(self@.cache, "geonames"@),
    {
        join_path(&self.cache, "geonames")
    }

    /// Dumps that are already on this machine, so the download can be skipped.
    pub fn local_dumps(&self) -> (path: Option<&String>)
        ensures
            match path {
                Some(path) => self@.dumps == Some(path@),
                None => self@.dumps is None,
            },
    {
        match &self.dumps {
            Some(path) => Some(path),
            None => None,
        }
    }

    pub fn cache_db(&self) -> (path: String)
        ensures
            path@ == below(self@.cache, "cache.db"@),
    {
        join_path(&self.cache, "cache.db")
    }

    pub fn app_db(&self) -> (path: String)
        ensures
            path@ == below(self@.data, "app.db"@),
    {
        join_path(&self.data, "app.db")
    }

    pub fn geo_db(&self) -> (path: String)
        ensures
            path@ == below(self@.data, "geo.db"@),
    {
        join_path(&self.data, "geo.db")
    }

    pub fn all(&self) -> (paths: Vec<String>)
        ensures
            views(paths@) == every_path(self@),
    {
        let mut paths: Vec<String> = Vec::new();
        paths.push(self.library.clone());
        paths.push(self.cache.clone());
        paths.push(self.data.clone());
        paths.push(self.thumbs_dir());
        paths.push(self.dumps_dir());
        paths.push(self.cache_db());
        paths.push(self.app_db());
        paths.push(self.geo_db());
        assert(views(paths@) =~= every_path(self@));
        paths
    }
}

pub open spec fn every_path(paths: PathsView) -> Seq<Seq<char>> {
    seq![
        paths.library,
        paths.cache,
        paths.data,
        below(paths.cache, "thumbs"@),
        below(paths.cache, "geonames"@),
        below(paths.cache, "cache.db"@),
        below(paths.data, "app.db"@),
        below(paths.data, "geo.db"@),
    ]
}

/// The library comes first of all the paths, and every other one lies in the cache or the data
/// directory.
pub proof fn every_path_has_its_place(paths: PathsView)
    ensures
        every_path(paths)[0] == paths.library,
        forall|i: int|
            1 <= i < every_path(paths).len() ==> crate::text::starts(
                #[trigger] every_path(paths)[i],
                paths.cache,
            ) || crate::text::starts(every_path(paths)[i], paths.data),
{
    lemma_own_names();
    assert(paths.cache.take(paths.cache.len() as int) =~= paths.cache);
    assert(paths.data.take(paths.data.len() as int) =~= paths.data);
    what_is_below_begins_with_it(paths.cache, "thumbs"@);
    what_is_below_begins_with_it(paths.cache, "geonames"@);
    what_is_below_begins_with_it(paths.cache, "cache.db"@);
    what_is_below_begins_with_it(paths.data, "app.db"@);
    what_is_below_begins_with_it(paths.data, "geo.db"@);
}

/// Where home is below a directory, and so is whatever else the variables name, everything lies
/// below it.
pub proof fn an_environment_below_a_root_stays_below_it(
    variables: Variables,
    there: bool,
    root: Seq<char>,
)
    requires
        resolved(variables, there) is Ok,
        crate::text::starts(variables.home->0, root),
        filled(variables.library) matches Some(path) ==> crate::text::starts(path, root),
        placed(variables.cache) matches Some(path) ==> crate::text::starts(path, root),
        placed(variables.data) matches Some(path) ==> crate::text::starts(path, root),
    ensures
        forall|i: int|
            0 <= i < every_path(resolved(variables, there)->Ok_0).len() ==> crate::text::starts(
                #[trigger] every_path(resolved(variables, there)->Ok_0)[i],
                root,
            ),
{
    let paths = resolved(variables, there)->Ok_0;
    let home = variables.home->0;
    lemma_own_names();
    reveal_strlit("Nextcloud/Photos");
    reveal_strlit(".cache");
    reveal_strlit(".local/share");
    lemma_starts_on(root, home, DEFAULT_LIBRARY@);
    lemma_starts_on(root, home, ".cache"@);
    lemma_starts_on(root, home, ".local/share"@);
    lemma_starts_on(root, base(variables.cache, home, ".cache"@), APP_ID@);
    lemma_starts_on(root, base(variables.data, home, ".local/share"@), APP_ID@);
    lemma_starts_on(root, paths.cache, "thumbs"@);
    lemma_starts_on(root, paths.cache, "geonames"@);
    lemma_starts_on(root, paths.cache, "cache.db"@);
    lemma_starts_on(root, paths.data, "app.db"@);
    lemma_starts_on(root, paths.data, "geo.db"@);
}

/// The names this application gives its own files are not absolute.
proof fn lemma_own_names()
    ensures
        !absolute(APP_ID@),
        !absolute("thumbs"@),
        !absolute("geonames"@),
        !absolute("cache.db"@),
        !absolute("app.db"@),
        !absolute("geo.db"@),
{
    reveal_strlit("org.beijingcode.PhotoManager");
    reveal_strlit("thumbs");
    reveal_strlit("geonames");
    reveal_strlit("cache.db");
    reveal_strlit("app.db");
    reveal_strlit("geo.db");
}

/// An environment that is redirected resolves nothing outside of what it says: everything lies
/// below the library, the cache and the data directory that the variables name.
pub proof fn a_redirected_environment_is_not_left(variables: Variables, there: bool)
    requires
        placed(variables.library) is Some,
        placed(variables.cache) is Some,
        placed(variables.data) is Some,
        resolved(variables, there) is Ok,
    ensures
        ({
            let paths = resolved(variables, there)->Ok_0;
            forall|i: int|
                0 <= i < every_path(paths).len() ==> {
                    ||| (#[trigger] every_path(paths)[i]) == variables.library->0
                    ||| crate::text::starts(every_path(paths)[i], variables.cache->0)
                    ||| crate::text::starts(every_path(paths)[i], variables.data->0)
                }
        }),
{
    let paths = resolved(variables, there)->Ok_0;
    let (cache, data) = (variables.cache->0, variables.data->0);
    lemma_own_names();
    what_is_below_begins_with_it(cache, APP_ID@);
    what_is_below_begins_with_it(data, APP_ID@);
    lemma_starts_on(cache, paths.cache, "thumbs"@);
    lemma_starts_on(cache, paths.cache, "geonames"@);
    lemma_starts_on(cache, paths.cache, "cache.db"@);
    lemma_starts_on(data, paths.data, "app.db"@);
    lemma_starts_on(data, paths.data, "geo.db"@);
}

proof fn lemma_starts_on(root: Seq<char>, path: Seq<char>, more: Seq<char>)
    requires
        crate::text::starts(path, root),
        !absolute(more),
    ensures
        crate::text::starts(below(path, more), root),
{
    what_is_below_begins_with_it(path, more);
    let whole = below(path, more);
    assert(whole.take(root.len() as int) =~= whole.take(path.len() as int).take(
        root.len() as int,
    ));
}

/// Nothing is resolved without a home, with a library that is no absolute path or with one that is
/// not there, and in this order; everything else is.
pub proof fn what_is_refused_says_why(variables: Variables, there: bool)
    ensures
        ({
            let home = variables.home matches Some(home) && trimmed(home).len() > 0;
            let relative = variables.library matches Some(library) && trimmed(library).len() > 0
                && library[0] != '/';
            &&& resolved(variables, there) is Ok <==> home && !relative && there
            &&& resolved(variables, there) == Err::<PathsView, PathsErrorView>(
                PathsErrorView::NoHome,
            ) <==> !home
            &&& resolved(variables, there) matches Err(PathsErrorView::RelativeLibrary(path))
                ==> variables.library == Some(path) && path[0] != '/'
            &&& home && relative ==> resolved(variables, there) matches Err(
                PathsErrorView::RelativeLibrary(path),
            )
        }),
{
    if let Some(library) = variables.library {
        if library.len() == 0 {
            assert(trimmed(library) =~= Seq::empty());
        }
    }
}

/// A directory is the one its variable says where that is an absolute path, and lies below home
/// where it is not; a library that is named is taken as it is.
pub proof fn a_directory_is_where_its_variable_says(variables: Variables, there: bool)
    requires
        resolved(variables, there) is Ok,
    ensures
        ({
            let paths = resolved(variables, there)->Ok_0;
            let says = |value: Option<Seq<char>>|
                value matches Some(path) && trimmed(path).len() > 0 && path[0] == '/';
            &&& says(variables.cache) ==> paths.cache == below(variables.cache->0, APP_ID@)
            &&& says(variables.data) ==> paths.data == below(variables.data->0, APP_ID@)
            &&& says(variables.library) ==> paths.library == variables.library->0
            &&& says(variables.dumps) ==> paths.dumps == variables.dumps
            &&& !says(variables.cache) ==> paths.cache == below(
                below(variables.home->0, ".cache"@),
                APP_ID@,
            )
            &&& !says(variables.data) ==> paths.data == below(
                below(variables.home->0, ".local/share"@),
                APP_ID@,
            )
            &&& !says(variables.dumps) ==> paths.dumps is None
        }),
{
    assert forall|text: Seq<char>| trimmed(text).len() > 0 implies text.len() > 0 by {
        if text.len() == 0 {
            assert(trimmed(text) =~= Seq::empty());
        }
    }
}

} // verus!

//! Route-table behaviour: insertion acceptance and conflicts, and
//! priority matching with backtracking across overlapping routes.

use monoio_route::Tree;

fn tree_of(routes: &[&str]) -> Tree<Vec<u8>> {
    let mut t = Tree::new();
    for r in routes {
        assert!(t.insert(r.as_bytes(), r.as_bytes().to_vec()).is_ok(), "insert failed: {}", r);
    }
    t
}

fn check(tree: &Tree<Vec<u8>>, path: &str, want: Option<&str>, params: &[(&str, &str)]) {
    match tree.at(path.as_bytes()) {
        Some((val, ps)) => {
            let w = want.expect("unexpected match");
            assert_eq!(val.as_slice(), w.as_bytes(), "value for {}", path);
            assert_eq!(ps.len(), params.len(), "param count for {}", path);
            for i in 0..params.len() {
                assert_eq!(ps.name_at(i).as_slice(), params[i].0.as_bytes(), "name {} for {}", i, path);
                assert_eq!(ps.value_at(i).as_slice(), params[i].1.as_bytes(), "value {} for {}", i, path);
            }
        }
        None => assert!(want.is_none(), "no match for {}", path),
    }
}

#[test]
fn wildcard_conflict() {
    let mut tree: Tree<()> = Tree::new();
    assert!(tree.insert(b"/cmd/:tool/:sub", ()).is_ok());
    assert!(tree.insert(b"/foo/bar", ()).is_ok());
    assert!(tree.insert(b"/foo/:name", ()).is_ok());
    assert!(tree.insert(b"/foo/:names", ()).is_err());
    assert!(tree.insert(b"/cmd/*path", ()).is_ok());
    assert!(tree.insert(b"/cmd/:xxx/names", ()).is_ok());
    assert!(tree.insert(b"/cmd/:tool/:xxx/foo", ()).is_ok());
    assert!(tree.insert(b"/src/*filepath", ()).is_ok());
    assert!(tree.insert(b"/src/:file", ()).is_ok());
    assert!(tree.insert(b"/src/static.json", ()).is_ok());
    assert!(tree.insert(b"/src/$filepathx", ()).is_ok());
    assert!(tree.insert(b"/src/", ()).is_ok());
    assert!(tree.insert(b"/src/foo/bar", ()).is_ok());
    assert!(tree.insert(b"/src1/", ()).is_ok());
    assert!(tree.insert(b"/src1/*filepath", ()).is_ok());
    assert!(tree.insert(b"/src2*filepath", ()).is_ok());
    assert!(tree.insert(b"/src2/*filepath", ()).is_ok());
    assert!(tree.insert(b"/src2/", ()).is_ok());
    assert!(tree.insert(b"/src2", ()).is_ok());
    assert!(tree.insert(b"/src3", ()).is_ok());
    assert!(tree.insert(b"/src3/*filepath", ()).is_ok());
    assert!(tree.insert(b"/search/:query", ()).is_ok());
    assert!(tree.insert(b"/search/valid", ()).is_ok());
    assert!(tree.insert(b"/user_:name", ()).is_ok());
    assert!(tree.insert(b"/user_x", ()).is_ok());
    assert!(tree.insert(b"/user_:bar", ()).is_err());
    assert!(tree.insert(b"/id:id", ()).is_ok());
    assert!(tree.insert(b"/id/:id", ()).is_ok());
}

#[test]
fn invalid_catchall() {
    let mut tree: Tree<()> = Tree::new();
    assert!(tree.insert(b"/non-leading-*catchall", ()).is_ok());
    assert!(tree.insert(b"/foo/bar*catchall", ()).is_ok());
    assert!(tree.insert(b"/src/*filepath/x", ()).is_err());
    assert!(tree.insert(b"/src2/", ()).is_ok());
    assert!(tree.insert(b"/src2/*filepath/x", ()).is_err());
}

#[test]
fn catchall_root_conflict() {
    let mut tree: Tree<()> = Tree::new();
    assert!(tree.insert(b"/", ()).is_ok());
    assert!(tree.insert(b"/*filepath", ()).is_ok());
}

#[test]
fn child_conflict() {
    let mut tree: Tree<()> = Tree::new();
    assert!(tree.insert(b"/cmd/vet", ()).is_ok());
    assert!(tree.insert(b"/cmd/:tool", ()).is_ok());
    assert!(tree.insert(b"/cmd/:tool/:sub", ()).is_ok());
    assert!(tree.insert(b"/cmd/:tool/misc", ()).is_ok());
    assert!(tree.insert(b"/cmd/:tool/:bad", ()).is_err());
    assert!(tree.insert(b"/src/AUTHORS", ()).is_ok());
    assert!(tree.insert(b"/src/*filepath", ()).is_ok());
    assert!(tree.insert(b"/user_x", ()).is_ok());
    assert!(tree.insert(b"/user_:name", ()).is_ok());
    assert!(tree.insert(b"/id/:id", ()).is_ok());
    assert!(tree.insert(b"/id:id", ()).is_ok());
    assert!(tree.insert(b"/:id", ()).is_ok());
    assert!(tree.insert(b"/*filepath", ()).is_ok());
}

#[test]
fn duplicates() {
    let mut tree: Tree<()> = Tree::new();
    assert!(tree.insert(b"/", ()).is_ok());
    assert!(tree.insert(b"/", ()).is_err());
    assert!(tree.insert(b"/doc/", ()).is_ok());
    assert!(tree.insert(b"/doc/", ()).is_err());
    assert!(tree.insert(b"/src/*filepath", ()).is_ok());
    assert!(tree.insert(b"/src/*filepath", ()).is_err());
    assert!(tree.insert(b"/search/:query", ()).is_ok());
    assert!(tree.insert(b"/search/:query", ()).is_err());
    assert!(tree.insert(b"/user_:name", ()).is_ok());
    assert!(tree.insert(b"/user_:name", ()).is_err());
}

#[test]
fn unnamed_param() {
    let mut tree: Tree<()> = Tree::new();
    assert!(tree.insert(b"/:", ()).is_err());
    assert!(tree.insert(b"/user:/", ()).is_err());
    assert!(tree.insert(b"/cmd/:/", ()).is_err());
    assert!(tree.insert(b"/src/*", ()).is_err());
}

#[test]
fn double_params() {
    let mut tree: Tree<()> = Tree::new();
    assert!(tree.insert(b"/::", ()).is_err());
    assert!(tree.insert(b"/::/", ()).is_err());
    assert!(tree.insert(b"/:*/*/", ()).is_err());
}

#[test]
fn normalized_conflict() {
    let mut tree: Tree<()> = Tree::new();
    assert!(tree.insert(b"/x/:foo/bar", ()).is_ok());
    assert!(tree.insert(b"/x/:bar/bar", ()).is_err());
    assert!(tree.insert(b"/:y/bar/baz", ()).is_ok());
    assert!(tree.insert(b"/:y/baz/baz", ()).is_ok());
    assert!(tree.insert(b"/:z/bar/bat", ()).is_ok());
    assert!(tree.insert(b"/:z/bar/baz", ()).is_err());
}

#[test]
fn more_conflicts() {
    let mut tree: Tree<()> = Tree::new();
    assert!(tree.insert(b"/con:tact", ()).is_ok());
    assert!(tree.insert(b"/who/are/*you", ()).is_ok());
    assert!(tree.insert(b"/who/foo/hello", ()).is_ok());
    assert!(tree.insert(b"/whose/:users/:name", ()).is_ok());
    assert!(tree.insert(b"/who/are/foo", ()).is_ok());
    assert!(tree.insert(b"/who/are/foo/bar", ()).is_ok());
    assert!(tree.insert(b"/con:nection", ()).is_err());
    assert!(tree.insert(b"/whose/:users/:user", ()).is_err());
}

#[test]
fn catchall_static_overlap() {
    let mut tree: Tree<()> = Tree::new();
    assert!(tree.insert(b"/bar", ()).is_ok());
    assert!(tree.insert(b"/bar/", ()).is_ok());
    assert!(tree.insert(b"/bar/*foo", ()).is_ok());
    tree = Tree::new();
    assert!(tree.insert(b"/foo", ()).is_ok());
    assert!(tree.insert(b"/*bar", ()).is_ok());
    assert!(tree.insert(b"/bar", ()).is_ok());
    assert!(tree.insert(b"/baz", ()).is_ok());
    assert!(tree.insert(b"/baz/:split", ()).is_ok());
    assert!(tree.insert(b"/", ()).is_ok());
    assert!(tree.insert(b"/*bar", ()).is_err());
    assert!(tree.insert(b"/*zzz", ()).is_err());
    assert!(tree.insert(b"/:xxx", ()).is_ok());
    tree = Tree::new();
    assert!(tree.insert(b"/*bar", ()).is_ok());
    assert!(tree.insert(b"/bar", ()).is_ok());
    assert!(tree.insert(b"/bar/x", ()).is_ok());
    assert!(tree.insert(b"/bar_:x", ()).is_ok());
    assert!(tree.insert(b"/bar_:x", ()).is_err());
    assert!(tree.insert(b"/bar_:x/y", ()).is_ok());
    assert!(tree.insert(b"/bar/:x", ()).is_ok());
}

#[test]
fn duplicate_conflict() {
    let mut tree: Tree<()> = Tree::new();
    assert!(tree.insert(b"/hey", ()).is_ok());
    assert!(tree.insert(b"/hey/users", ()).is_ok());
    assert!(tree.insert(b"/hey/user", ()).is_ok());
    assert!(tree.insert(b"/hey/user", ()).is_err());
}

#[test]
fn bare_catchall() {
    let mut tree: Tree<()> = Tree::new();
    assert!(tree.insert(b"/*foo", ()).is_ok());
    assert!(tree.insert(b"foo/*bar", ()).is_ok());
}

#[test]
fn partial_overlap() {
    let tree = tree_of(&[
        "/foo_bar",
        "/foo/bar",
        "/foo",
    ]);
    check(&tree, "/foo/", None, &[]);
}

#[test]
fn wildcard_overlap() {
    let tree0 = tree_of(&[
        "/path/foo",
        "/path/*rest",
    ]);
    check(&tree0, "/path/foo", Some("/path/foo"), &[]);
    check(&tree0, "/path/bar", Some("/path/*rest"), &[("rest", "bar")]);
    check(&tree0, "/path/foo/", Some("/path/*rest"), &[("rest", "foo/")]);
    let tree1 = tree_of(&[
        "/path/foo/:arg",
        "/path/*rest",
    ]);
    check(&tree1, "/path/foo/myarg", Some("/path/foo/:arg"), &[("arg", "myarg")]);
    check(&tree1, "/path/foo/myarg/", Some("/path/*rest"), &[("rest", "foo/myarg/")]);
    check(&tree1, "/path/foo/myarg/bar/baz", Some("/path/*rest"), &[("rest", "foo/myarg/bar/baz")]);
}

#[test]
fn overlapping_param_backtracking() {
    let tree = tree_of(&[
        "/:object/:id",
        "/secret/:id/path",
    ]);
    check(&tree, "/secret/978/path", Some("/secret/:id/path"), &[("id", "978")]);
    check(&tree, "/something/978", Some("/:object/:id"), &[("object", "something"), ("id", "978")]);
    check(&tree, "/secret/978", Some("/:object/:id"), &[("object", "secret"), ("id", "978")]);
}

#[test]
fn normalized() {
    let tree = tree_of(&[
        "/x/:foo/bar",
        "/x/:bar/baz",
        "/:foo/:baz/bax",
        "/:foo/:bar/baz",
        "/:fod/:baz/:bax/foo",
        "/:fod/baz/bax/foo",
        "/:foo/baz/bax",
        "/:bar/:bay/bay",
        "/s",
        "/s/s",
        "/s/s/s",
        "/s/s/s/s",
        "/s/s/:s/x",
        "/s/s/:y/d",
    ]);
    check(&tree, "/x/foo/bar", Some("/x/:foo/bar"), &[("foo", "foo")]);
    check(&tree, "/x/foo/baz", Some("/x/:bar/baz"), &[("bar", "foo")]);
    check(&tree, "/y/foo/baz", Some("/:foo/:bar/baz"), &[("foo", "y"), ("bar", "foo")]);
    check(&tree, "/y/foo/bax", Some("/:foo/:baz/bax"), &[("foo", "y"), ("baz", "foo")]);
    check(&tree, "/y/baz/baz", Some("/:foo/:bar/baz"), &[("foo", "y"), ("bar", "baz")]);
    check(&tree, "/y/baz/bax/foo", Some("/:fod/baz/bax/foo"), &[("fod", "y")]);
    check(&tree, "/y/baz/b/foo", Some("/:fod/:baz/:bax/foo"), &[("fod", "y"), ("baz", "baz"), ("bax", "b")]);
    check(&tree, "/y/baz/bax", Some("/:foo/baz/bax"), &[("foo", "y")]);
    check(&tree, "/z/bar/bay", Some("/:bar/:bay/bay"), &[("bar", "z"), ("bay", "bar")]);
    check(&tree, "/s", Some("/s"), &[]);
    check(&tree, "/s/s", Some("/s/s"), &[]);
    check(&tree, "/s/s/s", Some("/s/s/s"), &[]);
    check(&tree, "/s/s/s/s", Some("/s/s/s/s"), &[]);
    check(&tree, "/s/s/s/x", Some("/s/s/:s/x"), &[("s", "s")]);
    check(&tree, "/s/s/s/d", Some("/s/s/:y/d"), &[("y", "s")]);
}

#[test]
fn blog() {
    let tree = tree_of(&[
        "/:page",
        "/posts/:year/:month/:post",
        "/posts/:year/:month/index",
        "/posts/:year/top",
        "/static/*path",
        "/favicon.ico",
    ]);
    check(&tree, "/about", Some("/:page"), &[("page", "about")]);
    check(&tree, "/posts/2021/01/rust", Some("/posts/:year/:month/:post"), &[("year", "2021"), ("month", "01"), ("post", "rust")]);
    check(&tree, "/posts/2021/01/index", Some("/posts/:year/:month/index"), &[("year", "2021"), ("month", "01")]);
    check(&tree, "/posts/2021/top", Some("/posts/:year/top"), &[("year", "2021")]);
    check(&tree, "/static/foo.png", Some("/static/*path"), &[("path", "foo.png")]);
    check(&tree, "/favicon.ico", Some("/favicon.ico"), &[]);
}

#[test]
fn double_overlap() {
    let tree = tree_of(&[
        "/:object/:id",
        "/secret/:id/path",
        "/secret/978",
        "/other/:object/:id/",
        "/other/an_object/:id",
        "/other/static/path",
        "/other/long/static/path/",
    ]);
    check(&tree, "/secret/978/path", Some("/secret/:id/path"), &[("id", "978")]);
    check(&tree, "/some_object/978", Some("/:object/:id"), &[("object", "some_object"), ("id", "978")]);
    check(&tree, "/secret/978", Some("/secret/978"), &[]);
    check(&tree, "/super_secret/978/", None, &[]);
    check(&tree, "/other/object/1/", Some("/other/:object/:id/"), &[("object", "object"), ("id", "1")]);
    check(&tree, "/other/object/1/2", None, &[]);
    check(&tree, "/other/an_object/1", Some("/other/an_object/:id"), &[("id", "1")]);
    check(&tree, "/other/static/path", Some("/other/static/path"), &[]);
    check(&tree, "/other/long/static/path/", Some("/other/long/static/path/"), &[]);
}

#[test]
fn catchall_off_by_one() {
    let tree = tree_of(&[
        "/foo/*catchall",
        "/bar",
        "/bar/",
        "/bar/*catchall",
    ]);
    check(&tree, "/foo", None, &[]);
    // an exact match with no endpoint falls to the catch-all child, which binds the empty run
    check(&tree, "/foo/", Some("/foo/*catchall"), &[("catchall", "")]);
    check(&tree, "/foo/x", Some("/foo/*catchall"), &[("catchall", "x")]);
    check(&tree, "/bar", Some("/bar"), &[]);
    check(&tree, "/bar/", Some("/bar/"), &[]);
    check(&tree, "/bar/x", Some("/bar/*catchall"), &[("catchall", "x")]);
}

#[test]
fn overlap() {
    let tree = tree_of(&[
        "/foo",
        "/bar",
        "/*bar",
        "/baz",
        "/baz/",
        "/baz/x",
        "/baz/:xxx",
        "/",
        "/xxx/*x",
        "/xxx/",
    ]);
    check(&tree, "/foo", Some("/foo"), &[]);
    check(&tree, "/bar", Some("/bar"), &[]);
    check(&tree, "/baz", Some("/baz"), &[]);
    check(&tree, "/baz/", Some("/baz/"), &[]);
    check(&tree, "/baz/x", Some("/baz/x"), &[]);
    check(&tree, "/???", Some("/*bar"), &[("bar", "???")]);
    check(&tree, "/", Some("/"), &[]);
    check(&tree, "", None, &[]);
    check(&tree, "/xxx/y", Some("/xxx/*x"), &[("x", "y")]);
    check(&tree, "/xxx/", Some("/xxx/"), &[]);
    check(&tree, "/xxx", Some("/*bar"), &[("bar", "xxx")]);
}

#[test]
fn missing_trailing_slash_param() {
    let tree = tree_of(&[
        "/foo/:object/:id",
        "/foo/bar/baz",
        "/foo/secret/978/",
    ]);
    check(&tree, "/foo/secret/978/", Some("/foo/secret/978/"), &[]);
    check(&tree, "/foo/secret/978", Some("/foo/:object/:id"), &[("object", "secret"), ("id", "978")]);
}

#[test]
fn extra_trailing_slash_param() {
    let tree = tree_of(&[
        "/foo/:object/:id",
        "/foo/bar/baz",
        "/foo/secret/978",
    ]);
    check(&tree, "/foo/secret/978/", None, &[]);
    check(&tree, "/foo/secret/978", Some("/foo/secret/978"), &[]);
}

#[test]
fn missing_trailing_slash_catch_all() {
    let tree = tree_of(&[
        "/foo/*bar",
        "/foo/bar/baz",
        "/foo/secret/978/",
    ]);
    check(&tree, "/foo/secret/978", Some("/foo/*bar"), &[("bar", "secret/978")]);
    check(&tree, "/foo/secret/978/", Some("/foo/secret/978/"), &[]);
}

#[test]
fn extra_trailing_slash_catch_all() {
    let tree = tree_of(&[
        "/foo/*bar",
        "/foo/bar/baz",
        "/foo/secret/978",
    ]);
    check(&tree, "/foo/secret/978/", Some("/foo/*bar"), &[("bar", "secret/978/")]);
    check(&tree, "/foo/secret/978", Some("/foo/secret/978"), &[]);
}

#[test]
fn double_overlap_trailing_slash() {
    let tree = tree_of(&[
        "/:object/:id",
        "/secret/:id/path",
        "/secret/978/",
        "/other/:object/:id/",
        "/other/an_object/:id",
        "/other/static/path",
        "/other/long/static/path/",
    ]);
    check(&tree, "/secret/978/path/", None, &[]);
    check(&tree, "/object/id/", None, &[]);
    check(&tree, "/object/id/path", None, &[]);
    check(&tree, "/other/object/1", None, &[]);
    check(&tree, "/other/object/1/2", None, &[]);
    check(&tree, "/other/an_object/1/", Some("/other/:object/:id/"), &[("object", "an_object"), ("id", "1")]);
    check(&tree, "/other/static/path/", Some("/other/:object/:id/"), &[("object", "static"), ("id", "path")]);
    check(&tree, "/other/long/static/path", None, &[]);
    check(&tree, "/other/object/static/path", None, &[]);
}

#[test]
fn trailing_slash_overlap() {
    let tree = tree_of(&[
        "/foo/:x/baz/",
        "/foo/:x/baz",
        "/foo/bar/bar",
    ]);
    check(&tree, "/foo/x/baz/", Some("/foo/:x/baz/"), &[("x", "x")]);
    check(&tree, "/foo/x/baz", Some("/foo/:x/baz"), &[("x", "x")]);
    check(&tree, "/foo/bar/bar", Some("/foo/bar/bar"), &[]);
}

#[test]
fn trailing_slash() {
    let tree = tree_of(&[
        "/hi",
        "/b/",
        "/search/:query",
        "/cmd/:tool/",
        "/src/*filepath",
        "/x",
        "/x/y",
        "/y/",
        "/y/z",
        "/0/:id",
        "/0/:id/1",
        "/1/:id/",
        "/1/:id/2",
        "/aa",
        "/a/",
        "/admin",
        "/admin/static",
        "/admin/:category",
        "/admin/:category/:page",
        "/doc",
        "/doc/rust_faq.html",
        "/doc/rust1.26.html",
        "/no/a",
        "/no/b",
        "/no/a/b/*other",
        "/api/:page/:name",
        "/api/hello/:name/bar/",
        "/api/bar/:name",
        "/api/baz/foo",
        "/api/baz/foo/bar",
        "/foo/:p",
    ]);
    check(&tree, "/hi/", None, &[]);
    check(&tree, "/b", None, &[]);
    check(&tree, "/search/rustacean/", None, &[]);
    check(&tree, "/cmd/vet", None, &[]);
    check(&tree, "/src", None, &[]);
    // an exact match with no endpoint falls to the catch-all child, which binds the empty run
    check(&tree, "/src/", Some("/src/*filepath"), &[("filepath", "")]);
    check(&tree, "/x/", None, &[]);
    check(&tree, "/y", None, &[]);
    check(&tree, "/0/rust/", None, &[]);
    check(&tree, "/1/rust", None, &[]);
    check(&tree, "/a", None, &[]);
    check(&tree, "/admin/", None, &[]);
    check(&tree, "/doc/", None, &[]);
    check(&tree, "/admin/static/", None, &[]);
    check(&tree, "/admin/cfg/", None, &[]);
    check(&tree, "/admin/cfg/users/", None, &[]);
    check(&tree, "/api/hello/x/bar", None, &[]);
    check(&tree, "/api/baz/foo/", None, &[]);
    check(&tree, "/api/baz/bax/", None, &[]);
    check(&tree, "/api/bar/huh/", None, &[]);
    check(&tree, "/api/baz/foo/bar/", None, &[]);
    check(&tree, "/api/world/abc/", None, &[]);
    check(&tree, "/foo/pp/", None, &[]);
    check(&tree, "/", None, &[]);
    check(&tree, "/no", None, &[]);
    check(&tree, "/no/", None, &[]);
    check(&tree, "/no/a/b", None, &[]);
    check(&tree, "/no/a/b/", Some("/no/a/b/*other"), &[("other", "")]);
    check(&tree, "/_", None, &[]);
    check(&tree, "/_/", None, &[]);
    check(&tree, "/api", None, &[]);
    check(&tree, "/api/", None, &[]);
    check(&tree, "/api/hello/x/foo", None, &[]);
    check(&tree, "/api/baz/foo/bad", None, &[]);
    check(&tree, "/foo/p/p", None, &[]);
}

#[test]
fn backtracking_trailing_slash() {
    let tree = tree_of(&[
        "/a/:b/:c",
        "/a/b/:c/d/",
    ]);
    check(&tree, "/a/b/c/d", None, &[]);
}

#[test]
fn root_trailing_slash() {
    let tree = tree_of(&[
        "/foo",
        "/bar",
        "/:baz",
    ]);
    check(&tree, "/", None, &[]);
}

#[test]
fn catchall_overlap() {
    let tree = tree_of(&[
        "/yyy/*x",
        "/yyy*x",
    ]);
    check(&tree, "/yyy/y", Some("/yyy/*x"), &[("x", "y")]);
    // an exact match with no endpoint falls to the catch-all child, which binds the empty run
    check(&tree, "/yyy/", Some("/yyy/*x"), &[("x", "")]);
}

#[test]
fn basic() {
    let tree = tree_of(&[
        "/hi",
        "/contact",
        "/co",
        "/c",
        "/a",
        "/ab",
        "/doc/",
        "/doc/rust_faq.html",
        "/doc/rust1.26.html",
        "/\u{2af}",
        "/\u{3b2}",
        "/sd!here",
        "/sd$here",
        "/sd&here",
        "/sd'here",
        "/sd(here",
        "/sd)here",
        "/sd+here",
        "/sd,here",
        "/sd;here",
        "/sd=here",
    ]);
    check(&tree, "/a", Some("/a"), &[]);
    check(&tree, "/", None, &[]);
    check(&tree, "/hi", Some("/hi"), &[]);
    check(&tree, "/contact", Some("/contact"), &[]);
    check(&tree, "/co", Some("/co"), &[]);
    check(&tree, "/con", None, &[]);
    check(&tree, "/cona", None, &[]);
    check(&tree, "/no", None, &[]);
    check(&tree, "/ab", Some("/ab"), &[]);
    check(&tree, "/\u{2af}", Some("/\u{2af}"), &[]);
    check(&tree, "/\u{3b2}", Some("/\u{3b2}"), &[]);
    check(&tree, "/sd!here", Some("/sd!here"), &[]);
    check(&tree, "/sd$here", Some("/sd$here"), &[]);
    check(&tree, "/sd&here", Some("/sd&here"), &[]);
    check(&tree, "/sd'here", Some("/sd'here"), &[]);
    check(&tree, "/sd(here", Some("/sd(here"), &[]);
    check(&tree, "/sd)here", Some("/sd)here"), &[]);
    check(&tree, "/sd+here", Some("/sd+here"), &[]);
    check(&tree, "/sd,here", Some("/sd,here"), &[]);
    check(&tree, "/sd;here", Some("/sd;here"), &[]);
    check(&tree, "/sd=here", Some("/sd=here"), &[]);
}

#[test]
fn wildcard() {
    let tree = tree_of(&[
        "/",
        "/cmd/:tool/",
        "/cmd/:tool2/:sub",
        "/cmd/whoami",
        "/cmd/whoami/root",
        "/cmd/whoami/root/",
        "/src",
        "/src/",
        "/src/*filepath",
        "/search/",
        "/search/:query",
        "/search/actix-web",
        "/search/google",
        "/user_:name",
        "/user_:name/about",
        "/files/:dir/*filepath",
        "/doc/",
        "/doc/rust_faq.html",
        "/doc/rust1.26.html",
        "/info/:user/public",
        "/info/:user/project/:project",
        "/info/:user/project/rustlang",
        "/aa/*xx",
        "/ab/*xx",
        "/ab/hello*xx",
        "/:cc",
        "/c1/:dd/e",
        "/c1/:dd/e1",
        "/:cc/cc",
        "/:cc/:dd/ee",
        "/:cc/:dd/:ee/ff",
        "/:cc/:dd/:ee/:ff/gg",
        "/:cc/:dd/:ee/:ff/:gg/hh",
        "/get/test/abc/",
        "/get/:param/abc/",
        "/something/:paramname/thirdthing",
        "/something/secondthing/test",
        "/get/abc",
        "/get/:param",
        "/get/abc/123abc",
        "/get/abc/:param",
        "/get/abc/123abc/xxx8",
        "/get/abc/123abc/:param",
        "/get/abc/123abc/xxx8/1234",
        "/get/abc/123abc/xxx8/:param",
        "/get/abc/123abc/xxx8/1234/ffas",
        "/get/abc/123abc/xxx8/1234/:param",
        "/get/abc/123abc/xxx8/1234/kkdd/12c",
        "/get/abc/123abc/xxx8/1234/kkdd/:param",
        "/get/abc/:param/test",
        "/get/abc/123abd/:param",
        "/get/abc/123abddd/:param",
        "/get/abc/123/:param",
        "/get/abc/123abg/:param",
        "/get/abc/123abf/:param",
        "/get/abc/123abfff/:param",
    ]);
    check(&tree, "/", Some("/"), &[]);
    check(&tree, "/cmd/test", None, &[]);
    check(&tree, "/cmd/test/", Some("/cmd/:tool/"), &[("tool", "test")]);
    check(&tree, "/cmd/test/3", Some("/cmd/:tool2/:sub"), &[("tool2", "test"), ("sub", "3")]);
    check(&tree, "/cmd/who", None, &[]);
    check(&tree, "/cmd/who/", Some("/cmd/:tool/"), &[("tool", "who")]);
    check(&tree, "/cmd/whoami", Some("/cmd/whoami"), &[]);
    check(&tree, "/cmd/whoami/", Some("/cmd/:tool/"), &[("tool", "whoami")]);
    check(&tree, "/cmd/whoami/r", Some("/cmd/:tool2/:sub"), &[("tool2", "whoami"), ("sub", "r")]);
    check(&tree, "/cmd/whoami/r/", None, &[]);
    check(&tree, "/cmd/whoami/root", Some("/cmd/whoami/root"), &[]);
    check(&tree, "/cmd/whoami/root/", Some("/cmd/whoami/root/"), &[]);
    check(&tree, "/src", Some("/src"), &[]);
    check(&tree, "/src/", Some("/src/"), &[]);
    check(&tree, "/src/some/file.png", Some("/src/*filepath"), &[("filepath", "some/file.png")]);
    check(&tree, "/search/", Some("/search/"), &[]);
    check(&tree, "/search/actix", Some("/search/:query"), &[("query", "actix")]);
    check(&tree, "/search/actix-web", Some("/search/actix-web"), &[]);
    check(&tree, "/search/someth!ng+in+\u{fc}n\u{ec}cod\u{e9}", Some("/search/:query"), &[("query", "someth!ng+in+\u{fc}n\u{ec}cod\u{e9}")]);
    check(&tree, "/search/someth!ng+in+\u{fc}n\u{ec}cod\u{e9}/", None, &[]);
    check(&tree, "/user_rustacean", Some("/user_:name"), &[("name", "rustacean")]);
    check(&tree, "/user_rustacean/about", Some("/user_:name/about"), &[("name", "rustacean")]);
    check(&tree, "/files/js/inc/framework.js", Some("/files/:dir/*filepath"), &[("dir", "js"), ("filepath", "inc/framework.js")]);
    check(&tree, "/info/gordon/public", Some("/info/:user/public"), &[("user", "gordon")]);
    check(&tree, "/info/gordon/project/rust", Some("/info/:user/project/:project"), &[("user", "gordon"), ("project", "rust")]);
    check(&tree, "/info/gordon/project/rustlang", Some("/info/:user/project/rustlang"), &[("user", "gordon")]);
    // an exact match with no endpoint falls to the catch-all child, which binds the empty run
    check(&tree, "/aa/", Some("/aa/*xx"), &[("xx", "")]);
    check(&tree, "/aa/aa", Some("/aa/*xx"), &[("xx", "aa")]);
    check(&tree, "/ab/ab", Some("/ab/*xx"), &[("xx", "ab")]);
    check(&tree, "/ab/hello-world", Some("/ab/hello*xx"), &[("xx", "-world")]);
    check(&tree, "/a", Some("/:cc"), &[("cc", "a")]);
    check(&tree, "/all", Some("/:cc"), &[("cc", "all")]);
    check(&tree, "/d", Some("/:cc"), &[("cc", "d")]);
    check(&tree, "/ad", Some("/:cc"), &[("cc", "ad")]);
    check(&tree, "/dd", Some("/:cc"), &[("cc", "dd")]);
    check(&tree, "/dddaa", Some("/:cc"), &[("cc", "dddaa")]);
    check(&tree, "/aa", Some("/:cc"), &[("cc", "aa")]);
    check(&tree, "/aaa", Some("/:cc"), &[("cc", "aaa")]);
    check(&tree, "/aaa/cc", Some("/:cc/cc"), &[("cc", "aaa")]);
    check(&tree, "/ab", Some("/:cc"), &[("cc", "ab")]);
    check(&tree, "/abb", Some("/:cc"), &[("cc", "abb")]);
    check(&tree, "/abb/cc", Some("/:cc/cc"), &[("cc", "abb")]);
    check(&tree, "/allxxxx", Some("/:cc"), &[("cc", "allxxxx")]);
    check(&tree, "/alldd", Some("/:cc"), &[("cc", "alldd")]);
    check(&tree, "/all/cc", Some("/:cc/cc"), &[("cc", "all")]);
    check(&tree, "/a/cc", Some("/:cc/cc"), &[("cc", "a")]);
    check(&tree, "/c1/d/e", Some("/c1/:dd/e"), &[("dd", "d")]);
    check(&tree, "/c1/d/e1", Some("/c1/:dd/e1"), &[("dd", "d")]);
    check(&tree, "/c1/d/ee", Some("/:cc/:dd/ee"), &[("cc", "c1"), ("dd", "d")]);
    check(&tree, "/cc/cc", Some("/:cc/cc"), &[("cc", "cc")]);
    check(&tree, "/ccc/cc", Some("/:cc/cc"), &[("cc", "ccc")]);
    check(&tree, "/deedwjfs/cc", Some("/:cc/cc"), &[("cc", "deedwjfs")]);
    check(&tree, "/acllcc/cc", Some("/:cc/cc"), &[("cc", "acllcc")]);
    check(&tree, "/get/test/abc/", Some("/get/test/abc/"), &[]);
    check(&tree, "/get/te/abc/", Some("/get/:param/abc/"), &[("param", "te")]);
    check(&tree, "/get/testaa/abc/", Some("/get/:param/abc/"), &[("param", "testaa")]);
    check(&tree, "/get/xx/abc/", Some("/get/:param/abc/"), &[("param", "xx")]);
    check(&tree, "/get/tt/abc/", Some("/get/:param/abc/"), &[("param", "tt")]);
    check(&tree, "/get/a/abc/", Some("/get/:param/abc/"), &[("param", "a")]);
    check(&tree, "/get/t/abc/", Some("/get/:param/abc/"), &[("param", "t")]);
    check(&tree, "/get/aa/abc/", Some("/get/:param/abc/"), &[("param", "aa")]);
    check(&tree, "/get/abas/abc/", Some("/get/:param/abc/"), &[("param", "abas")]);
    check(&tree, "/something/secondthing/test", Some("/something/secondthing/test"), &[]);
    check(&tree, "/something/abcdad/thirdthing", Some("/something/:paramname/thirdthing"), &[("paramname", "abcdad")]);
    check(&tree, "/something/secondthingaaaa/thirdthing", Some("/something/:paramname/thirdthing"), &[("paramname", "secondthingaaaa")]);
    check(&tree, "/something/se/thirdthing", Some("/something/:paramname/thirdthing"), &[("paramname", "se")]);
    check(&tree, "/something/s/thirdthing", Some("/something/:paramname/thirdthing"), &[("paramname", "s")]);
    check(&tree, "/c/d/ee", Some("/:cc/:dd/ee"), &[("cc", "c"), ("dd", "d")]);
    check(&tree, "/c/d/e/ff", Some("/:cc/:dd/:ee/ff"), &[("cc", "c"), ("dd", "d"), ("ee", "e")]);
    check(&tree, "/c/d/e/f/gg", Some("/:cc/:dd/:ee/:ff/gg"), &[("cc", "c"), ("dd", "d"), ("ee", "e"), ("ff", "f")]);
    check(&tree, "/c/d/e/f/g/hh", Some("/:cc/:dd/:ee/:ff/:gg/hh"), &[("cc", "c"), ("dd", "d"), ("ee", "e"), ("ff", "f"), ("gg", "g")]);
    check(&tree, "/cc/dd/ee/ff/gg/hh", Some("/:cc/:dd/:ee/:ff/:gg/hh"), &[("cc", "cc"), ("dd", "dd"), ("ee", "ee"), ("ff", "ff"), ("gg", "gg")]);
    check(&tree, "/get/abc", Some("/get/abc"), &[]);
    check(&tree, "/get/a", Some("/get/:param"), &[("param", "a")]);
    check(&tree, "/get/abz", Some("/get/:param"), &[("param", "abz")]);
    check(&tree, "/get/12a", Some("/get/:param"), &[("param", "12a")]);
    check(&tree, "/get/abcd", Some("/get/:param"), &[("param", "abcd")]);
    check(&tree, "/get/abc/123abc", Some("/get/abc/123abc"), &[]);
    check(&tree, "/get/abc/12", Some("/get/abc/:param"), &[("param", "12")]);
    check(&tree, "/get/abc/123ab", Some("/get/abc/:param"), &[("param", "123ab")]);
    check(&tree, "/get/abc/xyz", Some("/get/abc/:param"), &[("param", "xyz")]);
    check(&tree, "/get/abc/123abcddxx", Some("/get/abc/:param"), &[("param", "123abcddxx")]);
    check(&tree, "/get/abc/123abc/xxx8", Some("/get/abc/123abc/xxx8"), &[]);
    check(&tree, "/get/abc/123abc/x", Some("/get/abc/123abc/:param"), &[("param", "x")]);
    check(&tree, "/get/abc/123abc/xxx", Some("/get/abc/123abc/:param"), &[("param", "xxx")]);
    check(&tree, "/get/abc/123abc/abc", Some("/get/abc/123abc/:param"), &[("param", "abc")]);
    check(&tree, "/get/abc/123abc/xxx8xxas", Some("/get/abc/123abc/:param"), &[("param", "xxx8xxas")]);
    check(&tree, "/get/abc/123abc/xxx8/1234", Some("/get/abc/123abc/xxx8/1234"), &[]);
    check(&tree, "/get/abc/123abc/xxx8/1", Some("/get/abc/123abc/xxx8/:param"), &[("param", "1")]);
    check(&tree, "/get/abc/123abc/xxx8/123", Some("/get/abc/123abc/xxx8/:param"), &[("param", "123")]);
    check(&tree, "/get/abc/123abc/xxx8/78k", Some("/get/abc/123abc/xxx8/:param"), &[("param", "78k")]);
    check(&tree, "/get/abc/123abc/xxx8/1234xxxd", Some("/get/abc/123abc/xxx8/:param"), &[("param", "1234xxxd")]);
    check(&tree, "/get/abc/123abc/xxx8/1234/ffas", Some("/get/abc/123abc/xxx8/1234/ffas"), &[]);
    check(&tree, "/get/abc/123abc/xxx8/1234/f", Some("/get/abc/123abc/xxx8/1234/:param"), &[("param", "f")]);
    check(&tree, "/get/abc/123abc/xxx8/1234/ffa", Some("/get/abc/123abc/xxx8/1234/:param"), &[("param", "ffa")]);
    check(&tree, "/get/abc/123abc/xxx8/1234/kka", Some("/get/abc/123abc/xxx8/1234/:param"), &[("param", "kka")]);
    check(&tree, "/get/abc/123abc/xxx8/1234/ffas321", Some("/get/abc/123abc/xxx8/1234/:param"), &[("param", "ffas321")]);
    check(&tree, "/get/abc/123abc/xxx8/1234/kkdd/12c", Some("/get/abc/123abc/xxx8/1234/kkdd/12c"), &[]);
    check(&tree, "/get/abc/123abc/xxx8/1234/kkdd/1", Some("/get/abc/123abc/xxx8/1234/kkdd/:param"), &[("param", "1")]);
    check(&tree, "/get/abc/123abc/xxx8/1234/kkdd/12", Some("/get/abc/123abc/xxx8/1234/kkdd/:param"), &[("param", "12")]);
    check(&tree, "/get/abc/123abc/xxx8/1234/kkdd/12b", Some("/get/abc/123abc/xxx8/1234/kkdd/:param"), &[("param", "12b")]);
    check(&tree, "/get/abc/123abc/xxx8/1234/kkdd/34", Some("/get/abc/123abc/xxx8/1234/kkdd/:param"), &[("param", "34")]);
    check(&tree, "/get/abc/123abc/xxx8/1234/kkdd/12c2e3", Some("/get/abc/123abc/xxx8/1234/kkdd/:param"), &[("param", "12c2e3")]);
    check(&tree, "/get/abc/12/test", Some("/get/abc/:param/test"), &[("param", "12")]);
    check(&tree, "/get/abc/123abdd/test", Some("/get/abc/:param/test"), &[("param", "123abdd")]);
    check(&tree, "/get/abc/123abdddf/test", Some("/get/abc/:param/test"), &[("param", "123abdddf")]);
    check(&tree, "/get/abc/123ab/test", Some("/get/abc/:param/test"), &[("param", "123ab")]);
    check(&tree, "/get/abc/123abgg/test", Some("/get/abc/:param/test"), &[("param", "123abgg")]);
    check(&tree, "/get/abc/123abff/test", Some("/get/abc/:param/test"), &[("param", "123abff")]);
    check(&tree, "/get/abc/123abffff/test", Some("/get/abc/:param/test"), &[("param", "123abffff")]);
    check(&tree, "/get/abc/123abd/test", Some("/get/abc/123abd/:param"), &[("param", "test")]);
    check(&tree, "/get/abc/123abddd/test", Some("/get/abc/123abddd/:param"), &[("param", "test")]);
    check(&tree, "/get/abc/123/test22", Some("/get/abc/123/:param"), &[("param", "test22")]);
    check(&tree, "/get/abc/123abg/test", Some("/get/abc/123abg/:param"), &[("param", "test")]);
    check(&tree, "/get/abc/123abf/testss", Some("/get/abc/123abf/:param"), &[("param", "testss")]);
    check(&tree, "/get/abc/123abfff/te", Some("/get/abc/123abfff/:param"), &[("param", "te")]);
}

use rand::distributions::Alphanumeric;
use rand::random;
use rand::Rng;
use toy_http_server::request::Request;
use toy_http_server::response::Response;
use toy_http_server::router::Router;

#[test]
fn router_test_lcp() {
    let node_x: Router<()> = Router {
        path: "abcde".to_string(),
        handler: None,
        children: Vec::new(),
    };
    assert_eq!(node_x.longest_common_prefix("abchoge"), 3);
}

#[test]
fn router_test_lcp_root() {
    let node_x: Router<()> = Router {
        path: "".to_string(),
        handler: None,
        children: Vec::new(),
    };
    assert_eq!(node_x.longest_common_prefix("abchoge"), 0);
}

fn dummy_handler(_request: &Request) -> Response {
    unreachable!()
}

#[test]
fn router_test_find() {
    let mut tree = Router::new();
    let keys = vec!["/", "to", "tea", "ted", "hoge", "h", "i", "in", "inn"];
    for key in &keys {
        tree.add_route(key, dummy_handler);
    }
    for key in keys {
        match tree.find(key) {
            Some(_) => continue,
            None => panic!(),
        }
    }
}

// Generate random alphanumeric string.
fn random_string() -> String {
    let length = random::<usize>() % 100 + 1;
    rand::thread_rng()
        .sample_iter(&Alphanumeric)
        .take(length)
        .map(char::from)
        .collect::<String>()
}

#[test]
fn router_test_find_random() {
    let mut tree = Router::new();
    let count = 1000;
    let keys = (0..count).map(|_| random_string()).collect::<Vec<String>>();
    for key in &keys {
        tree.add_route(key, dummy_handler);
    }
    for key in &keys {
        match tree.find(key) {
            Some(_) => continue,
            None => panic!("keys: {:?}\n, key: {}\n", &keys, key),
        }
    }
}

#[test]
fn router_test_find_with_wildcard() {
    let mut tree = Router::new();
    let paths = vec!["/", "/index.html", "/static/*"];
    for key in &paths {
        tree.add_route(key, dummy_handler);
    }
    let queries = vec![
        "/",
        "/index.html",
        "/static/index.html",
        "/static/style.css",
        "/static/index.js",
    ];
    for query in &queries {
        match tree.find(query) {
            Some(_) => continue,
            None => panic!(),
        }
    }
}

fn siblings_disjoint<H>(node: &Router<H>) -> bool {
    let firsts: Vec<Option<char>> = node.children.iter().map(|c| c.path.chars().next()).collect();
    for i in 0..firsts.len() {
        for j in (i + 1)..firsts.len() {
            if firsts[i].is_some() && firsts[i] == firsts[j] {
                return false;
            }
        }
    }
    node.children.iter().all(|c| siblings_disjoint(c))
}

fn build(paths: &[&str]) -> Router<usize> {
    let mut tree = Router::new();
    for (i, p) in paths.iter().enumerate() {
        tree.add_route(p, i);
    }
    tree
}

#[test]
fn registered_paths_are_found_with_their_handler() {
    let paths = ["/a/b", "/a", "/abc", "/ab", "/b", "/a/b/c", "x"];
    let tree = build(&paths);
    for (i, p) in paths.iter().enumerate() {
        assert_eq!(tree.find(p), Some(&i));
    }
}

#[test]
fn last_registration_wins() {
    let mut tree = Router::new();
    tree.add_route("/a", 1);
    tree.add_route("/ab", 2);
    tree.add_route("/a", 3);
    assert_eq!(tree.find("/a"), Some(&3));
    assert_eq!(tree.find("/ab"), Some(&2));
}

#[test]
fn sibling_labels_never_share_a_first_character() {
    let tree = build(&["/", "to", "tea", "ted", "ten", "t", "i", "in", "inn", "/static/*", "/s"]);
    assert!(siblings_disjoint(&tree));
    assert_eq!(tree.children.len(), 3);
}

#[test]
fn insertion_order_does_not_matter() {
    let orders: [[&str; 4]; 4] = [
        ["/abc", "/abd", "/a", "/b"],
        ["/b", "/a", "/abd", "/abc"],
        ["/a", "/abc", "/b", "/abd"],
        ["/abd", "/b", "/abc", "/a"],
    ];
    for order in orders {
        let mut tree = Router::new();
        for p in order {
            tree.add_route(p, p.to_string());
        }
        for p in order {
            assert_eq!(tree.find(p), Some(&p.to_string()));
        }
    }
}

#[test]
fn empty_key_is_never_found() {
    let mut tree = Router::new();
    assert_eq!(tree.find(""), None);
    tree.add_route("/", 1);
    tree.add_route("", 2);
    assert_eq!(tree.find(""), None);
    assert_eq!(tree.find("/"), Some(&1));
}

#[test]
fn split_where_the_new_path_is_the_common_prefix() {
    let mut tree = Router::new();
    tree.add_route("abc", 1);
    tree.add_route("a", 2);
    assert_eq!(tree.find("a"), Some(&2));
    assert_eq!(tree.find("abc"), Some(&1));
    assert_eq!(tree.children.len(), 1);
    assert_eq!(tree.children[0].path, "a");
    assert_eq!(tree.children[0].children[0].path, "bc");
}

#[test]
fn wildcard_answers_for_everything_below_its_prefix() {
    let mut tree = Router::new();
    tree.add_route("/static/*", 7);
    assert_eq!(tree.find("/static/anything"), Some(&7));
    assert_eq!(tree.find("/static/a/b"), Some(&7));
    assert_eq!(tree.find("/static/"), Some(&7));
    assert_eq!(tree.find("/static/*"), Some(&7));
    assert_eq!(tree.find("/statics"), None);
    assert_eq!(tree.find("/static"), None);
    assert_eq!(tree.find("/other"), None);
    assert_eq!(tree.children[0].path, "/static/");
    assert_eq!(tree.children[0].handler, Some(7));
    assert_eq!(tree.children[0].children[0].path, "*");
    assert_eq!(tree.children[0].children[0].handler, None);
}

#[test]
fn wildcard_registered_where_a_node_ends() {
    let mut tree = Router::new();
    tree.add_route("/static/a", 1);
    tree.add_route("/static/", 2);
    tree.add_route("/static/*", 3);
    assert_eq!(tree.find("/static/a"), Some(&1));
    assert_eq!(tree.find("/static/b"), Some(&3));
    assert_eq!(tree.find("/static/ab"), Some(&3));
    assert_eq!(tree.find("/static/"), Some(&3));

    let mut tree = Router::new();
    tree.add_route("/static/a", 1);
    tree.add_route("/static/*", 3);
    assert_eq!(tree.find("/static/b"), Some(&3));
    assert_eq!(tree.find("/static/a"), Some(&1));
    assert_eq!(tree.find("/stat"), None);
}

#[test]
fn exact_route_beats_root_wildcard() {
    let mut tree = Router::new();
    tree.add_route("/*", "files");
    tree.add_route("/sleep", "sleep");
    assert_eq!(tree.find("/sleep"), Some(&"sleep"));
    assert_eq!(tree.find("/sleeping"), Some(&"files"));
    assert_eq!(tree.find("/index.html"), Some(&"files"));
    assert_eq!(tree.find("/"), Some(&"files"));
}

#[test]
fn deepest_wildcard_answers() {
    let mut tree = Router::new();
    tree.add_route("/a/*", 1);
    tree.add_route("/a/b/*", 2);
    assert_eq!(tree.find("/a/x"), Some(&1));
    assert_eq!(tree.find("/a/b/x"), Some(&2));
    assert_eq!(tree.find("/a/bx"), Some(&1));
}

#[test]
fn paths_that_cannot_be_registered_are_ignored() {
    let mut tree = Router::new();
    tree.add_route("/a*b", 1);
    tree.add_route("*", 2);
    tree.add_route("", 3);
    tree.add_route("/x/**", 4);
    assert!(tree.children.is_empty());
    assert_eq!(tree.handler, None);
}

#[test]
fn shared_prefix_takes_the_new_handler() {
    let mut tree = Router::new();
    tree.add_route("hoge", 'A');
    tree.add_route("h", 'B');
    assert_eq!(tree.children.len(), 1);
    assert_eq!(tree.children[0].path, "h");
    assert_eq!(tree.children[0].handler, Some('B'));
    assert_eq!(tree.children[0].children.len(), 1);
    assert_eq!(tree.children[0].children[0].path, "oge");
    assert_eq!(tree.children[0].children[0].handler, Some('A'));
    assert!(tree.children[0].children[0].children.is_empty());
}

#[test]
fn scenario_index_and_static_files() {
    let mut tree = Router::new();
    tree.add_route("/", 'A');
    tree.add_route("/index.html", 'B');
    tree.add_route("/static/*", 'C');
    assert_eq!(tree.find("/"), Some(&'A'));
    assert_eq!(tree.find("/index.html"), Some(&'B'));
    assert_eq!(tree.find("/static/app.css"), Some(&'C'));
    assert_eq!(tree.find("/missing"), None);
}

#[test]
fn prefix_without_handler_is_not_found() {
    let mut tree = Router::new();
    tree.add_route("/abc", 1);
    tree.add_route("/abd", 2);
    assert_eq!(tree.find("/ab"), None);
    assert_eq!(tree.find("/abx"), None);
    assert_eq!(tree.find("/a"), None);
}

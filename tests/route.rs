use rand::distributions::Alphanumeric;
use rand::random;
use rand::Rng;
use toy_http_server::request::Request;
use toy_http_server::response::Response;
use toy_http_server::router::route::Route;
use toy_http_server::router::Router;

#[test]
fn route_test_lcp() {
    let node_x: Route<()> = Route {
        root: Router {
            path: "abcde".to_string(),
            handler: None,
            children: Vec::new(),
        },
    };
    assert_eq!(node_x.longest_common_prefix("abchoge"), 3);
}

#[test]
fn route_test_lcp_root() {
    let node_x: Route<()> = Route {
        root: Router {
            path: "".to_string(),
            handler: None,
            children: Vec::new(),
        },
    };
    assert_eq!(node_x.longest_common_prefix("abchoge"), 0);
}

fn dummy_handler(_request: &Request) -> Response {
    unreachable!()
}

#[test]
fn route_test_find() {
    let mut tree = Route::new();
    let keys = vec!["/", "to", "tea", "ted", "ten", "i", "in", "inn"];
    for key in &keys {
        tree.add_route(key, dummy_handler);
    }
    for key in keys {
        match tree.find(key) {
            Some(_) => continue,
            None => panic!(),
        }
    }
}

// Generate random alphanumeric string.
fn random_string() -> String {
    let length = random::<usize>() % 500 + 1;
    rand::thread_rng()
        .sample_iter(&Alphanumeric)
        .take(length)
        .map(char::from)
        .collect::<String>()
}

#[test]
fn route_test_find_random() {
    let mut tree = Route::new();
    let count = 1000;
    let keys = (0..count).map(|_| random_string()).collect::<Vec<String>>();
    for key in &keys {
        tree.add_route(key, dummy_handler);
    }
    for key in &keys {
        match tree.find(key) {
            Some(_) => continue,
            None => panic!("{}", key),
        }
    }
}

#[test]
fn route_test_find_with_wildcard() {
    let mut tree = Route::new();
    let paths = vec!["/", "/index.html", "/static/*"];
    for key in &paths {
        tree.add_route(key, dummy_handler);
    }
    let queries = vec![
        "/",
        "/index.html",
        "/static/index.html",
        "/static/style.css",
        "/static/index.js",
    ];
    for query in &queries {
        match tree.find(query) {
            Some(_) => continue,
            None => panic!(),
        }
    }
}

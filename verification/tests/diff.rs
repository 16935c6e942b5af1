use caddis::diff::Category;
use caddis::diff::D;

fn double(x: i64) -> i64 {
    x + x
}

fn triple(x: i64) -> i64 {
    x + x + x
}

#[test]
fn test_linear_d_pairs_function_with_itself() {
    let d = D::linear_d(double as fn(i64) -> i64);
    assert_eq!((d.f)(3), 6);
    assert_eq!((d.df)(3), 6);
}

#[test]
fn test_category_id_copies_the_function() {
    let d = D { f: double as fn(i64) -> i64, df: triple as fn(i64) -> i64 };
    let e = <D<fn(i64) -> i64> as Category>::id(d);
    assert_eq!((e.f)(5), 10);
    assert_eq!((e.df)(5), 10);
}

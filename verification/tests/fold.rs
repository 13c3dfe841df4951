use vec_fold_result::{StaticStringError, VecFoldResult, VecFoldResultBisect};

#[test]
fn test() {
    let r: Vec<Result<_, StaticStringError>> = vec![Ok(1), Ok(2), Ok(3)];
    assert_eq!(vec![&1, &2, &3], r.foldr().unwrap());
    assert_eq!((vec![&1, &2, &3], vec![]), r.foldr_bisect());

    let r: Vec<Result<_, StaticStringError>> =
        vec![Ok(1), Err(StaticStringError("oops")), Ok(3)];
    assert_eq!(&StaticStringError("oops"), r.foldr().unwrap_err());
    assert_eq!(
        (vec![&1, &3], vec![&StaticStringError("oops")]),
        r.foldr_bisect()
    );
}

#[test]
fn test_with_parse() {
    let valid: Vec<Result<u32, _>> = "1,2,3".split(",").map(|x| x.parse::<u32>()).collect();

    let invalid: Vec<Result<u32, _>> = "1,2,a".split(",").map(|x| x.parse::<u32>()).collect();

    // happy path, no errors, just the values
    assert_eq!(vec![&1, &2, &3], valid.foldr().unwrap());

    // sad path returns the error
    assert!(invalid.foldr().is_err());

    // happy path, no errors, return empty error vector
    assert_eq!((vec![&1, &2, &3], vec![]), valid.foldr_bisect());

    // sad path, populate error vector
    let (ok, _) = invalid.foldr_bisect();
    assert_eq!(vec![&1, &2], ok);
}

#[test]
fn parse_failure_is_the_only_failure_entry() {
    let invalid: Vec<Result<u32, _>> = "1,2,a".split(",").map(|x| x.parse::<u32>()).collect();
    let expected = "a".parse::<u32>().unwrap_err();

    assert_eq!(&expected, invalid.foldr().unwrap_err());

    let (ok, err) = invalid.foldr_bisect();
    assert_eq!(vec![&1, &2], ok);
    assert_eq!(vec![&expected], err);
}

#[test]
fn empty_list_folds_to_empty_success() {
    let r: Vec<Result<u32, StaticStringError>> = Vec::new();
    let none: Vec<&u32> = Vec::new();
    assert_eq!(Ok(none), r.foldr());
}

#[test]
fn empty_list_bisects_to_two_empty_sides() {
    let r: Vec<Result<u32, StaticStringError>> = Vec::new();
    let (ok, err) = r.foldr_bisect();
    assert!(ok.is_empty());
    assert!(err.is_empty());
}

#[test]
fn without_failures_every_value_comes_back_in_place() {
    let r: Vec<Result<&str, StaticStringError>> = vec![Ok("c"), Ok("a"), Ok("b"), Ok("a")];
    let folded = r.foldr().unwrap();
    assert_eq!(r.len(), folded.len());
    for (i, value) in folded.iter().enumerate() {
        assert_eq!(r[i].as_ref().unwrap(), *value);
    }
}

#[test]
fn leftmost_failure_wins() {
    let r: Vec<Result<u32, StaticStringError>> = vec![
        Ok(1),
        Ok(2),
        Err(StaticStringError("first")),
        Ok(4),
        Err(StaticStringError("second")),
    ];
    assert_eq!(Err(&StaticStringError("first")), r.foldr());
}

#[test]
fn failure_in_front_wins() {
    let r: Vec<Result<u32, StaticStringError>> =
        vec![Err(StaticStringError("front")), Ok(2), Err(StaticStringError("back"))];
    assert_eq!(Err(&StaticStringError("front")), r.foldr());
}

#[test]
fn failure_at_the_end_is_found() {
    let r: Vec<Result<u32, StaticStringError>> =
        vec![Ok(1), Ok(2), Err(StaticStringError("last"))];
    assert_eq!(Err(&StaticStringError("last")), r.foldr());
}

#[test]
fn what_follows_the_leftmost_failure_does_not_matter() {
    let short: Vec<Result<u32, StaticStringError>> =
        vec![Ok(1), Err(StaticStringError("stop"))];
    let long: Vec<Result<u32, StaticStringError>> = vec![
        Ok(1),
        Err(StaticStringError("stop")),
        Ok(3),
        Err(StaticStringError("later")),
        Ok(5),
    ];
    assert_eq!(short.foldr(), long.foldr());
}

#[test]
fn bisect_keeps_order_on_both_sides() {
    let r: Vec<Result<u32, StaticStringError>> = vec![
        Err(StaticStringError("a")),
        Ok(30),
        Ok(10),
        Err(StaticStringError("c")),
        Ok(20),
        Err(StaticStringError("b")),
    ];
    let (ok, err) = r.foldr_bisect();
    assert_eq!(vec![&30, &10, &20], ok);
    assert_eq!(
        vec![
            &StaticStringError("a"),
            &StaticStringError("c"),
            &StaticStringError("b")
        ],
        err
    );
    assert_eq!(r.len(), ok.len() + err.len());
}

#[test]
fn bisect_of_failures_only_has_no_successes() {
    let r: Vec<Result<u32, StaticStringError>> =
        vec![Err(StaticStringError("x")), Err(StaticStringError("y"))];
    let (ok, err) = r.foldr_bisect();
    assert!(ok.is_empty());
    assert_eq!(vec![&StaticStringError("x"), &StaticStringError("y")], err);
}

#[test]
fn bisect_of_successes_only_has_no_failures() {
    let r: Vec<Result<u32, StaticStringError>> = vec![Ok(7), Ok(8)];
    let (ok, err) = r.foldr_bisect();
    assert_eq!(vec![&7, &8], ok);
    assert!(err.is_empty());
}

#[test]
fn fail_fast_agrees_with_bisect() {
    let mixed: Vec<Result<u32, StaticStringError>> =
        vec![Ok(1), Err(StaticStringError("e1")), Err(StaticStringError("e2"))];
    let (_, err) = mixed.foldr_bisect();
    assert_eq!(err[0], mixed.foldr().unwrap_err());

    let clean: Vec<Result<u32, StaticStringError>> = vec![Ok(1), Ok(2)];
    let (ok, err) = clean.foldr_bisect();
    assert!(err.is_empty());
    assert_eq!(ok, clean.foldr().unwrap());
}

#[test]
fn folding_twice_gives_equal_results() {
    let r: Vec<Result<u32, StaticStringError>> =
        vec![Ok(1), Err(StaticStringError("oops")), Ok(3)];
    assert_eq!(r.foldr(), r.foldr());
    assert_eq!(r.foldr_bisect(), r.foldr_bisect());

    let clean: Vec<Result<u32, StaticStringError>> = vec![Ok(1), Ok(2), Ok(3)];
    assert_eq!(clean.foldr(), clean.foldr());
    assert_eq!(clean.foldr_bisect(), clean.foldr_bisect());
}

#[test]
fn folding_leaves_the_list_as_it_was() {
    let r: Vec<Result<u32, StaticStringError>> =
        vec![Ok(1), Err(StaticStringError("oops")), Ok(3)];
    let _ = r.foldr();
    let _ = r.foldr_bisect();
    assert_eq!(
        vec![Ok(1), Err(StaticStringError("oops")), Ok(3)],
        r
    );
}

#[test]
fn results_point_into_the_list() {
    let r: Vec<Result<u32, StaticStringError>> =
        vec![Ok(1), Err(StaticStringError("oops")), Ok(1)];

    let failure = r.foldr().unwrap_err();
    assert!(std::ptr::eq(failure, r[1].as_ref().unwrap_err()));

    let (ok, err) = r.foldr_bisect();
    assert!(std::ptr::eq(ok[0], r[0].as_ref().unwrap()));
    assert!(std::ptr::eq(ok[1], r[2].as_ref().unwrap()));
    assert!(std::ptr::eq(err[0], r[1].as_ref().unwrap_err()));
}

#[test]
fn message_is_shown_unchanged() {
    assert_eq!("oops", StaticStringError("oops").message());
    assert_eq!("", StaticStringError("").message());
}

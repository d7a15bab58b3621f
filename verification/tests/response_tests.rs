use wordle::responses::Guess;
use wordle::responses::SResponse;

#[test]
fn test_guess_compare() {
    assert_eq!(Guess::new("a", "b"), Guess::new("a", "b"));
}

#[test]
fn test_response_compare() {
    assert_eq!(SResponse::new(&vec!()), SResponse::new(&vec!()));
}

#[test]
fn test_guess_inc() {
    assert_eq!(Guess::new("", "").inc(), "");

    assert_eq!(Guess::new("a", "b").inc(), "");
    assert_eq!(Guess::new("a", "y").inc(), "a");
    assert_eq!(Guess::new("ab", "yb").inc(), "a");
    assert_eq!(Guess::new("ba", "by").inc(), "a");
    assert_eq!(Guess::new("ab", "yy").inc(), "ab");

    assert_eq!(Guess::new("a", "g").inc(), "a");
    assert_eq!(Guess::new("ab", "gb").inc(), "a");
    assert_eq!(Guess::new("ba", "bg").inc(), "a");
    assert_eq!(Guess::new("ab", "gg").inc(), "ab");

    assert_eq!(Guess::new("ab", "yg").inc(), "ab");
}

#[test]
fn test_guess_exc() {
    assert_eq!(Guess::new("", "").exc(), "");

    assert_eq!(Guess::new("a", "b").exc(), "a");
    assert_eq!(Guess::new("a", "y").exc(), "");
    assert_eq!(Guess::new("ab", "yb").exc(), "b");
    assert_eq!(Guess::new("ba", "by").exc(), "b");
    assert_eq!(Guess::new("ab", "bb").exc(), "ab");

    assert_eq!(Guess::new("a", "g").exc(), "");
    assert_eq!(Guess::new("ab", "gb").exc(), "b");
    assert_eq!(Guess::new("ba", "bg").exc(), "b");
}

#[test]
fn test_guess_slow_check() {
    // Check b
    assert_eq!(Guess::new("", "").slow_check(""), true);

    assert_eq!(Guess::new("a", "b").slow_check("a"), false);
    assert_eq!(Guess::new("a", "b").slow_check("b"), true);

    assert_eq!(Guess::new("ab", "bb").slow_check(""), true);
    assert_eq!(Guess::new("ab", "bb").slow_check("a"), false);
    assert_eq!(Guess::new("ab", "bb").slow_check("b"), false);
    assert_eq!(Guess::new("ab", "bb").slow_check("c"), true);

    // Check y
    assert_eq!(Guess::new("a", "y").slow_check("a"), false);
    assert_eq!(Guess::new("ab", "yb").slow_check("ca"), true);

    assert_eq!(Guess::new("ab", "yb").slow_check("ac"), false);

    // Check g
    assert_eq!(Guess::new("a", "g").slow_check("a"), true);

    assert_eq!(Guess::new("ab", "gb").slow_check("ac"), true);
    assert_eq!(Guess::new("ab", "gb").slow_check("cb"), false);

    assert_eq!(Guess::new("ba", "bg").slow_check("ac"), false);
}

#[test]
fn test_sresponse_check() {
    // Check b
    assert_eq!(SResponse::new(&vec!(Guess::new("a", "b"))).slow_check(""), true);
    assert_eq!(SResponse::new(&vec!(Guess::new("a", "b"))).check(""), true);

    assert_eq!(SResponse::new(&vec!(Guess::new("ab", "bb"))).slow_check("cc"), true);
    assert_eq!(SResponse::new(&vec!(Guess::new("ab", "bb"))).check("cc"), true);
    assert_eq!(SResponse::new(&vec!(Guess::new("ab", "bb"))).slow_check("a"), false);
    assert_eq!(SResponse::new(&vec!(Guess::new("ab", "bb"))).check("a"), false);
    assert_eq!(SResponse::new(&vec!(Guess::new("ab", "bb"))).slow_check("b"), false);
    assert_eq!(SResponse::new(&vec!(Guess::new("ab", "bb"))).check("b"), false);

    assert_eq!(
        SResponse::new(&vec!(Guess::new("ab", "bb"), Guess::new("cd", "bb"),)).slow_check("ee"),
        true
    );
    assert_eq!(
        SResponse::new(&vec!(Guess::new("ab", "bb"), Guess::new("cd", "bb"),)).check("ee"),
        true
    );
    assert_eq!(
        SResponse::new(&vec!(Guess::new("ab", "bb"), Guess::new("cd", "bb"),)).slow_check("ae"),
        false
    );
    assert_eq!(
        SResponse::new(&vec!(Guess::new("ab", "bb"), Guess::new("cd", "bb"),)).check("ae"),
        false
    );
    assert_eq!(
        SResponse::new(&vec!(Guess::new("ab", "bb"), Guess::new("cd", "bb"),)).slow_check("ea"),
        false
    );
    assert_eq!(
        SResponse::new(&vec!(Guess::new("ab", "bb"), Guess::new("cd", "bb"),)).check("ea"),
        false
    );
    assert_eq!(
        SResponse::new(&vec!(Guess::new("ab", "bb"), Guess::new("cd", "bb"),)).slow_check("ec"),
        false
    );
    assert_eq!(
        SResponse::new(&vec!(Guess::new("ab", "bb"), Guess::new("cd", "bb"),)).check("ec"),
        false
    );

    // Check y
    assert_eq!(SResponse::new(&vec!(Guess::new("a", "y"))).slow_check("a"), false);
    assert_eq!(SResponse::new(&vec!(Guess::new("a", "y"))).check("a"), false);
    assert_eq!(SResponse::new(&vec!(Guess::new("ab", "yb"))).slow_check("ac"), false);
    assert_eq!(SResponse::new(&vec!(Guess::new("ab", "yb"))).check("ac"), false);
    assert_eq!(SResponse::new(&vec!(Guess::new("ab", "yb"))).slow_check("ca"), true);
    assert_eq!(SResponse::new(&vec!(Guess::new("ab", "yb"))).check("ca"), true);

    assert_eq!(
        SResponse::new(&vec!(Guess::new("ab", "yb"), Guess::new("cd", "by"),)).slow_check("da"),
        true
    );
    assert_eq!(
        SResponse::new(&vec!(Guess::new("ab", "yb"), Guess::new("cd", "by"),)).check("da"),
        true
    );
    assert_eq!(
        SResponse::new(&vec!(Guess::new("ab", "yb"), Guess::new("cd", "by"),)).slow_check("df"),
        false
    );
    assert_eq!(
        SResponse::new(&vec!(Guess::new("ab", "yb"), Guess::new("cd", "by"),)).check("df"),
        false
    );
    assert_eq!(
        SResponse::new(&vec!(Guess::new("ab", "yb"), Guess::new("cd", "by"),)).slow_check("fa"),
        false
    );
    assert_eq!(
        SResponse::new(&vec!(Guess::new("ab", "yb"), Guess::new("cd", "by"),)).check("fa"),
        false
    );

    // Check g
    assert_eq!(SResponse::new(&vec!(Guess::new("a", "g"))).slow_check("a"), true);
    assert_eq!(SResponse::new(&vec!(Guess::new("a", "g"))).check("a"), true);
    assert_eq!(SResponse::new(&vec!(Guess::new("a", "g"))).slow_check("b"), false);
    assert_eq!(SResponse::new(&vec!(Guess::new("a", "g"))).check("b"), false);

    assert_eq!(
        SResponse::new(&vec!(Guess::new("ab", "gb"), Guess::new("cd", "bb"),)).slow_check("ae"),
        true
    );
    assert_eq!(
        SResponse::new(&vec!(Guess::new("ab", "gb"), Guess::new("cd", "bb"),)).check("ae"),
        true
    );
    assert_eq!(
        SResponse::new(&vec!(Guess::new("ab", "gb"), Guess::new("cd", "bb"),)).slow_check("ee"),
        false
    );
    assert_eq!(
        SResponse::new(&vec!(Guess::new("ab", "gb"), Guess::new("cd", "bb"),)).check("ee"),
        false
    );
    assert_eq!(
        SResponse::new(&vec!(Guess::new("ab", "gb"), Guess::new("cd", "bg"),)).slow_check("ad"),
        true
    );
    assert_eq!(
        SResponse::new(&vec!(Guess::new("ab", "gb"), Guess::new("cd", "bg"),)).check("ad"),
        true
    );
}

#[test]
fn test_inclusion_wins_in_summaries() {
    // The same letter Black in one guess and Yellow in another stays in
    // the present summary and out of the absent one.
    let r = SResponse::new(&vec![Guess::new("xa", "bb"), Guess::new("ax", "by")]);
    let combinedish = r.combined(&SResponse::new(&vec![]));
    // A word that holds x away from the Yellow position passes.
    assert_eq!(r.check("xz"), true);
    assert_eq!(combinedish.check("xz"), true);
}

#[test]
fn test_green_summary() {
    let r = SResponse::new(&vec![Guess::new("abc", "gbb"), Guess::new("dec", "bbg")]);
    assert_eq!(r.green(), "a c");
    assert_eq!(r.green_count(), 2);
    let empty = SResponse::new(&vec![]);
    assert_eq!(empty.green(), "");
    assert_eq!(empty.green_count(), 0);
}

#[test]
fn test_combined_summaries() {
    let a = SResponse::new(&vec![Guess::new("ab", "yb")]);
    let b = SResponse::new(&vec![Guess::new("cb", "bg")]);
    let joined = a.combined(&b);
    // b was Black in the first response and Green in the second:
    // inclusion wins after joining.
    assert_eq!(joined.check("bba"), true);
    assert_eq!(joined.check("ab"), false);
}

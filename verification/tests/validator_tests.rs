use akshar::decimal::Decimal;
use akshar::problems::FreeResponseRestriction;
use akshar::problems::FreeResponseSolution;
use akshar::problems::ProblemContent;
use akshar::problems::ProblemType;
use akshar::problems::Rejection;
use akshar::problems::check_restrictions;
use akshar::problems::check_solutions;
use akshar::problems::checklist_correct;
use akshar::problems::multiple_choice_correct;
use akshar::problems::restrictions_supported;
use akshar::problems::solutions_supported;

fn range(start: Option<Decimal>, end: Option<Decimal>) -> FreeResponseRestriction {
    FreeResponseRestriction::RealInRange { start, end }
}

#[test]
fn integer_restriction() {
    let r = FreeResponseRestriction::Integer;
    assert_eq!(r.check("42".to_string()), Ok(()));
    assert_eq!(r.check("-42".to_string()), Ok(()));
    assert_eq!(r.check("4.2".to_string()), Err(Rejection::NotInteger));
    assert_eq!(r.check("abc".to_string()), Err(Rejection::NotInteger));
    assert_eq!(r.check("2147483648".to_string()), Err(Rejection::NotInteger));
}

#[test]
fn natural_restriction() {
    let r = FreeResponseRestriction::Natural;
    assert_eq!(r.check("7".to_string()), Ok(()));
    assert_eq!(r.check("0".to_string()), Ok(()));
    assert_eq!(r.check("-7".to_string()), Err(Rejection::NotNatural));
    assert_eq!(r.check("7.5".to_string()), Err(Rejection::NotNatural));
}

#[test]
fn max_length_is_strict() {
    let r = FreeResponseRestriction::MaxCharacterLength(5);
    assert_eq!(r.check("abcd".to_string()), Ok(()));
    assert_eq!(r.check("abcde".to_string()), Err(Rejection::TooLong { limit: 5 }));
}

#[test]
fn range_inside_bounds() {
    let zero = Decimal { mantissa: 0, scale: 1 };
    let ten = Decimal { mantissa: 100, scale: 1 };
    let r = range(Some(zero), Some(ten));
    assert_eq!(r.check("5".to_string()), Ok(()));
    assert_eq!(r.check("0.0".to_string()), Ok(()));
    assert_eq!(r.check("10".to_string()), Ok(()));
    assert_eq!(r.check("11".to_string()), Err(Rejection::AboveMaximum { bound: ten }));
    assert_eq!(r.check("-0.5".to_string()), Err(Rejection::BelowMinimum { bound: zero }));
    assert_eq!(r.check("five".to_string()), Err(Rejection::NotReal));
}

#[test]
fn range_bounds_are_optional() {
    let ten = Decimal { mantissa: 100, scale: 1 };
    let only_upper = range(None, Some(ten));
    assert_eq!(only_upper.check("-1000000".to_string()), Ok(()));
    assert_eq!(only_upper.check("10.5".to_string()), Err(Rejection::AboveMaximum { bound: ten }));
    let unbounded = range(None, None);
    assert_eq!(unbounded.check("123456.789".to_string()), Ok(()));
    assert_eq!(unbounded.check("".to_string()), Err(Rejection::NotReal));
}

#[test]
fn unsupported_restriction_kinds_are_flagged() {
    assert!(!FreeResponseRestriction::Imaginary.supported());
    assert!(!FreeResponseRestriction::ImaginaryInRange { start: None, end: None }.supported());
    assert!(FreeResponseRestriction::Integer.supported());
    let sol = FreeResponseSolution::ImaginaryEquals {
        eq: Decimal { mantissa: 1, scale: 0 },
        precision: Decimal { mantissa: 1, scale: 0 },
    };
    assert!(!sol.supported());
}

#[test]
fn real_equals_precision_is_exclusive() {
    let sol = FreeResponseSolution::RealEquals {
        eq: Decimal { mantissa: 30, scale: 1 },
        precision: Decimal { mantissa: 1, scale: 1 },
    };
    assert!(sol.check("3.05".to_string()));
    assert!(!sol.check("3.2".to_string()));
    // exactly eq + precision away: not a match
    assert!(!sol.check("3.1".to_string()));
    assert!(!sol.check("not a number".to_string()));
}

#[test]
fn text_equals_is_exact() {
    let sol = FreeResponseSolution::TextEquals { eq: "Paris".to_string() };
    assert!(sol.check("Paris".to_string()));
    assert!(!sol.check("paris".to_string()));
    assert!(!sol.check("Paris ".to_string()));
    assert!(!sol.check("".to_string()));
}

#[test]
fn restriction_list_surfaces_first_failure() {
    let rs = vec![
        FreeResponseRestriction::Integer,
        FreeResponseRestriction::MaxCharacterLength(3),
    ];
    assert_eq!(check_restrictions(&rs, &"12".to_string()), Ok(()));
    assert_eq!(check_restrictions(&rs, &"12345".to_string()), Err(Rejection::TooLong { limit: 3 }));
    assert_eq!(check_restrictions(&rs, &"abcde".to_string()), Err(Rejection::NotInteger));
    assert_eq!(check_restrictions(&vec![], &"anything".to_string()), Ok(()));
}

#[test]
fn solution_list_accepts_any_match() {
    let sols = vec![
        FreeResponseSolution::TextEquals { eq: "four".to_string() },
        FreeResponseSolution::RealEquals {
            eq: Decimal { mantissa: 4, scale: 0 },
            precision: Decimal { mantissa: 1, scale: 1 },
        },
    ];
    assert!(check_solutions(&sols, &"four".to_string()));
    assert!(check_solutions(&sols, &"4.05".to_string()));
    assert!(!check_solutions(&sols, &"five".to_string()));
    assert!(!check_solutions(&vec![], &"four".to_string()));
}

#[test]
fn supported_guards_scan_the_lists() {
    assert!(restrictions_supported(&vec![FreeResponseRestriction::Integer]));
    assert!(!restrictions_supported(&vec![
        FreeResponseRestriction::Integer,
        FreeResponseRestriction::Imaginary,
    ]));
    let good = FreeResponseSolution::TextEquals { eq: "x".to_string() };
    let bad = FreeResponseSolution::ImaginaryEquals {
        eq: Decimal { mantissa: 1, scale: 0 },
        precision: Decimal { mantissa: 1, scale: 0 },
    };
    assert!(solutions_supported(&vec![good.clone()]));
    assert!(!solutions_supported(&vec![good, bad]));
}

#[test]
fn multiple_choice_grading() {
    assert!(multiple_choice_correct(1, 1));
    assert!(!multiple_choice_correct(1, 0));
}

#[test]
fn checklist_grading_requires_exact_set() {
    let solution = vec![0, 2];
    assert!(checklist_correct(&solution, &vec![0, 2]));
    assert!(checklist_correct(&solution, &vec![2, 0]));
    assert!(!checklist_correct(&solution, &vec![0]));
    assert!(!checklist_correct(&solution, &vec![0, 1, 2]));
    assert!(!checklist_correct(&solution, &vec![]));
    assert!(checklist_correct(&vec![], &vec![]));
}

#[test]
fn rejection_messages() {
    assert_eq!(Rejection::NotInteger.message(), "Input must a valid integer");
    assert_eq!(Rejection::NotNatural.message(), "Input must a natural number");
    assert_eq!(Rejection::NotReal.message(), "Input must be a real number");
    assert_eq!(
        Rejection::TooLong { limit: 5 }.message(),
        "Input must be 5 characters or less"
    );
    assert_eq!(
        Rejection::BelowMinimum { bound: Decimal { mantissa: 0, scale: 1 } }.message(),
        "Input must be greater than 0.0"
    );
    assert_eq!(
        Rejection::AboveMaximum { bound: Decimal { mantissa: 100, scale: 1 } }.message(),
        "Input must be less than 10.0"
    );
}

#[test]
fn get_type_reports_variant() {
    let fr = ProblemContent::FreeResponse { restrictions: vec![], solution: vec![] };
    let mc = ProblemContent::MultipleChoice { options: vec!["a".to_string()], solution: 0 };
    let cl = ProblemContent::Checklist { options: vec!["a".to_string()], solution: vec![0] };
    assert_eq!(fr.get_type(), ProblemType::FreeResponse);
    assert_eq!(mc.get_type(), ProblemType::MultipleChoice);
    assert_eq!(cl.get_type(), ProblemType::Checklist);
}

#[test]
fn content_well_formedness() {
    let ok_mc = ProblemContent::MultipleChoice {
        options: vec!["a".to_string(), "b".to_string()],
        solution: 1,
    };
    assert!(ok_mc.is_wf());
    let bad_mc = ProblemContent::MultipleChoice {
        options: vec!["a".to_string(), "b".to_string()],
        solution: 2,
    };
    assert!(!bad_mc.is_wf());
    let ok_cl = ProblemContent::Checklist {
        options: vec!["a".to_string(), "b".to_string(), "c".to_string()],
        solution: vec![0, 2],
    };
    assert!(ok_cl.is_wf());
    let dup_cl = ProblemContent::Checklist {
        options: vec!["a".to_string(), "b".to_string(), "c".to_string()],
        solution: vec![0, 0],
    };
    assert!(!dup_cl.is_wf());
    let oob_cl = ProblemContent::Checklist {
        options: vec!["a".to_string()],
        solution: vec![1],
    };
    assert!(!oob_cl.is_wf());
}

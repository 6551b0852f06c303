use modelflat_bot::lua::{
    conclude, engine, sandbox, strip_location, Evaluated, ExecutionStatus, InstructionBudget,
    SuccessfulExecution,
};

/// Runs a script that ends by itself on an engine of its own. No
/// instruction is counted here, so the budget comes back as it went in.
fn run(source: &str, instruction_limit: i32, memory_limit: usize) -> Result<SuccessfulExecution, String> {
    let program = sandbox(source);
    let vm = engine(memory_limit);
    let budget = InstructionBudget::new(instruction_limit as isize);
    let evaluated = vm.context(|context| match context.load(&program).into_function() {
        Ok(compiled) => match compiled.call::<_, (i64, String)>(0) {
            Ok((code, text)) => Evaluated::Returned(code, text),
            Err(error) => Evaluated::Failed(format!("{:?}", error)),
        },
        Err(error) => Evaluated::Rejected(format!("{:?}", error)),
    });
    conclude(evaluated, budget.left(), budget.exceeded())
}

#[test]
fn test_can_execute_normally() {
    let result = run(
        r#"
        local x = "123"
        for i=1,2 do
            x = x..x
        end
        return x
        "#,
        100000,
        32 * (1 << 10),
    );

    let expected = "123123123123".to_string();

    match result {
        Ok(SuccessfulExecution { result, .. }) => assert_eq!(result, expected, "wrong result"),
        Err(e) => assert!(false, "execution error: {}", e),
    };
}

#[test]
fn test_instruction_limit_is_respected() {
    let mut budget = InstructionBudget::new(100);
    let mut passed = 0;
    while !budget.tick() {
        passed += 1;
        assert!(passed <= 100, "the budget should run out after 100 instructions");
    }
    assert_eq!(passed, 100);
    let result = conclude(
        Evaluated::Failed("RuntimeError(\"execution timeout!\")".to_string()),
        budget.left(),
        budget.exceeded(),
    );

    let expected_error = "ERROR: instruction limit reached".to_string();

    match result {
        Ok(SuccessfulExecution { result, .. }) => {
            assert!(false, "should abort with error, returned '{}' instead", result)
        }
        Err(e) => assert_eq!(e, expected_error, "wrong error"),
    };
}

#[test]
fn test_memory_limit_is_respected() {
    let result = run(
        r#"
        local x = "1234"
        for i=1,100 do
            x = x .. x
        end
        return x
        "#,
        1000000,
        32 * (1 << 10),
    );

    let expected_error = "ERROR: not enough memory".to_string();

    match result {
        Ok(SuccessfulExecution { result, .. }) => {
            assert!(false, "should abort with error, returned '{}' instead", result)
        }
        Err(e) => assert_eq!(e, expected_error, "wrong error"),
    };
}

#[test]
fn test_compilation_error() {
    let result = run(
        r#"
        local x = "1234"
        for end
        return x
        "#,
        1000,
        32 * (1 << 10),
    );

    match result {
        Ok(SuccessfulExecution { result, .. }) => {
            assert!(false, "should abort with error, returned '{}' instead", result)
        }
        Err(_) => assert!(true, "should abort with error"),
    };
}

#[test]
fn a_bounded_script_has_instructions_left() {
    match run("return 'done'", 1024, 640 * (1 << 10)) {
        Ok(done) => {
            assert_eq!(done.result, "done");
            assert!(done.instructions_left >= 0);
            assert!(done.instructions_left <= 1024);
        }
        Err(e) => panic!("the script failed: {}", e),
    }
}

#[test]
fn a_script_that_returns_nothing_is_an_error() {
    match run("local x = 1", 1024, 640 * (1 << 10)) {
        Ok(done) => panic!("the script returned '{}'", done.result),
        Err(e) => assert!(e.starts_with("ERROR: ")),
    }
}

#[test]
fn a_runtime_error_is_shown_without_its_place() {
    match run("error('broken')", 1024, 640 * (1 << 10)) {
        Ok(done) => panic!("the script returned '{}'", done.result),
        Err(e) => assert_eq!(e, "ERROR: attempt to call a nil value (global 'error')"),
    }
}

#[test]
fn a_script_cannot_close_the_loader() {
    match run("return ']]' .. ']=]' .. 'x'", 1024, 640 * (1 << 10)) {
        Ok(done) => assert_eq!(done.result, "]]]=]x"),
        Err(e) => panic!("the script failed: {}", e),
    }
    match run("]]) os.exit(1) --[[", 1024, 640 * (1 << 10)) {
        Ok(done) => panic!("the script returned '{}'", done.result),
        Err(e) => assert!(e.starts_with("ERROR: ")),
    }
}

#[test]
fn a_script_sees_an_empty_environment() {
    match run("return type(os)", 1024, 640 * (1 << 10)) {
        Ok(done) => panic!("the script returned '{}'", done.result),
        Err(e) => assert!(e.starts_with("ERROR: "), "unexpected error: {}", e),
    }
}

#[test]
fn the_loader_quotes_the_script_one_level_above_its_longest_run() {
    let plain = sandbox("return 1");
    assert!(plain.contains("return run([=[\n    return 1\n]=])\n"));
    let tricky = sandbox("a ]==] b = c");
    assert!(tricky.contains("return run([===[\n    a ]==] b = c\n]===])\n"));
    assert!(plain.starts_with("\nlocal env = {}\n"));
}

#[test]
fn locations_are_stripped() {
    assert_eq!(strip_location("[string \"?\"]:1: attempt to call a nil value"), "attempt to call a nil value");
    assert_eq!(strip_location("[string \"x y\"]:12:   spaced  "), "spaced");
    assert_eq!(strip_location("not enough memory"), "not enough memory");
    assert_eq!(strip_location("[string without an end"), "[string without an end");
    assert_eq!(strip_location("[string]:1:nospace"), "[string]:1:nospace");
    assert_eq!(strip_location("x [string \"?\"]:1: y"), "x [string \"?\"]:1: y");
}

#[test]
fn every_outcome_is_concluded() {
    match conclude(Evaluated::Returned(0, "value".to_string()), 7, false) {
        Ok(done) => {
            assert_eq!(done.instructions_left, 7);
            assert_eq!(done.result, "value");
        }
        Err(e) => panic!("unexpected error: {}", e),
    }
    assert_eq!(
        conclude(Evaluated::Returned(1, "[string \"?\"]:3: unexpected symbol".to_string()), 7, false).err(),
        Some("ERROR: unexpected symbol".to_string())
    );
    assert_eq!(
        conclude(Evaluated::Returned(2, "not enough memory".to_string()), 7, false).err(),
        Some("ERROR: not enough memory".to_string())
    );
    assert_eq!(
        conclude(Evaluated::Returned(9, "x".to_string()), 7, false).err(),
        Some("ERROR: unknown status".to_string())
    );
    assert_eq!(
        conclude(Evaluated::Returned(9, "x".to_string()), -1, true).err(),
        Some("ERROR: instruction limit reached".to_string())
    );
    assert_eq!(
        conclude(Evaluated::Failed("boom".to_string()), -1, true).err(),
        Some("ERROR: instruction limit reached".to_string())
    );
    assert_eq!(
        conclude(Evaluated::Failed("boom".to_string()), 3, false).err(),
        Some("ERROR: boom".to_string())
    );
    assert_eq!(
        conclude(Evaluated::Rejected("bad".to_string()), 3, true).err(),
        Some("ERROR: bad".to_string())
    );
}

#[test]
fn status_numbers() {
    assert_eq!(ExecutionStatus::Success.code(), 0);
    assert_eq!(ExecutionStatus::CompilationError.code(), 1);
    assert_eq!(ExecutionStatus::RuntimeError.code(), 2);
    assert_eq!(ExecutionStatus::from_code(0), Some(ExecutionStatus::Success));
    assert_eq!(ExecutionStatus::from_code(1), Some(ExecutionStatus::CompilationError));
    assert_eq!(ExecutionStatus::from_code(2), Some(ExecutionStatus::RuntimeError));
    assert_eq!(ExecutionStatus::from_code(3), None);
    assert_eq!(ExecutionStatus::from_code(-1), None);
}

#[test]
fn a_budget_counts_down_and_remembers_that_it_ran_out() {
    let mut budget = InstructionBudget::new(2);
    assert!(!budget.exceeded());
    assert!(!budget.tick());
    assert!(!budget.tick());
    assert_eq!(budget.left(), 0);
    assert!(!budget.exceeded());
    assert!(budget.tick());
    assert!(budget.exceeded());
    assert_eq!(budget.left(), -1);
    assert!(budget.tick());
    assert_eq!(budget.left(), -2);
    let mut lowest = InstructionBudget::new(isize::MIN);
    assert!(lowest.tick());
    assert_eq!(lowest.left(), isize::MIN);
}

#[test]
fn what_is_left_of_the_budget_is_reported() {
    let mut budget = InstructionBudget::new(5);
    for _ in 0..3 {
        assert!(!budget.tick());
    }
    match conclude(Evaluated::Returned(0, "x".to_string()), budget.left(), budget.exceeded()) {
        Ok(done) => assert_eq!(done.instructions_left, 2),
        Err(e) => panic!("the script failed: {}", e),
    }
}

#[test]
fn a_ceiling_below_what_the_engine_uses_fails_the_script() {
    for limit in [0usize, 1, 1024] {
        match run("return 'x' .. 'y'", 1024, limit) {
            Ok(done) => panic!("the script returned '{}' under a ceiling of {}", done.result, limit),
            Err(e) => assert!(e.starts_with("ERROR: "), "unexpected error: {}", e),
        }
    }
}

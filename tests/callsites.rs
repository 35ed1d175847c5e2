use badlock::callsites::{
    trim_non_alphanumeric, Alloca, InstructionCallSites, KnowAlloca, KnownCallsites, NameError, Predecessors,
};

#[test]
fn callee_name_is_read_and_trimmed() {
    let instr = "  %3 = call i32 @\"foo\"(i32 1)";
    assert_eq!(InstructionCallSites::called_function_name_from_str(instr), Ok("foo".to_string()));
    let invoke = "invoke void @bar(ptr %x) to label %bb1 unwind label %bb2";
    assert_eq!(InstructionCallSites::called_function_name_from_str(invoke), Ok("bar".to_string()));
}

#[test]
fn instruction_without_callee_is_an_error() {
    assert_eq!(
        InstructionCallSites::called_function_name_from_str("%1 = add i32 %a, %b"),
        Err(NameError::NoCallTarget)
    );
}

#[test]
fn callee_name_is_demangled() {
    let instr = "call void @_ZN3foo3barE()";
    assert_eq!(
        InstructionCallSites::demangled_called_function_name(instr),
        Ok("foo::bar".to_string())
    );
}

#[test]
fn lock_new_and_drop_names_are_classified() {
    assert!(KnownCallsites::is_std_sync_mutex_lock_call("std::sync::mutex::Mutex<T>::lock::h12"));
    assert!(!KnownCallsites::is_std_sync_mutex_lock_call("std::sync::mutex::Mutex<T>::new"));
    assert!(KnownCallsites::is_std_sync_mutex_new_call("std::sync::mutex::Mutex<T>::new"));
    assert!(KnownCallsites::is_std_sync_mutex_drop(
        "core::ptr::drop_in_place<std::sync::mutex::MutexGuard<i32>>::h3"
    ));
    assert!(!KnownCallsites::is_std_sync_mutex_drop("core::ptr::drop_in_place<i32>"));
    assert_eq!(
        KnownCallsites::from_demangled("std::sync::mutex::Mutex<T>::lock"),
        KnownCallsites::StdSyncMutexLock
    );
    assert_eq!(
        KnownCallsites::from_demangled("std::sync::mutex::Mutex<T>::new"),
        KnownCallsites::StdSyncMutexNew
    );
    assert_eq!(
        KnownCallsites::from_demangled("core::ptr::drop_in_place<std::sync::mutex::MutexGuard<i32>>::x"),
        KnownCallsites::StdSyncMutexDrop
    );
    assert_eq!(KnownCallsites::from_demangled("std::io::stdout"), KnownCallsites::Unknown);
}

#[test]
fn instruction_text_is_classified() {
    assert_eq!(KnownCallsites::from_instr("%1 = add i32 %a, %b"), KnownCallsites::Unknown);
    assert_eq!(KnownCallsites::from_instr("call void @_ZN3foo3barE()"), KnownCallsites::Unknown);
    assert_eq!(KnownCallsites::try_from_instr("ret void"), Err(NameError::NoCallTarget));
    assert_eq!(KnownCallsites::try_from_instr("call void @_ZN3foo3barE()"), Ok(KnownCallsites::Unknown));
    assert_eq!(KnownCallsites::is_std_sync_mutex_lock_call_site("call void @_ZN3foo3barE()"), Ok(false));
    assert_eq!(KnownCallsites::is_std_sync_mutex_new_call_site("ret void"), Err(NameError::NoCallTarget));
    assert_eq!(KnownCallsites::is_std_sync_mutex_drop_call_site("call void @_ZN3foo3barE()"), Ok(false));
}

#[test]
fn guard_allocation_is_recognised() {
    let instr = "%guard = alloca %\"core::result::Result<std::sync::mutex::MutexGuard<i32>, x>\", align 8";
    assert_eq!(
        Alloca::get_type_from_alloca_str(instr),
        Ok("core::result::Result<std::sync::mutex::MutexGuard<i32".to_string())
    );
    assert_eq!(KnowAlloca::from_instr(instr), KnowAlloca::MutexGuard);
    assert_eq!(KnowAlloca::from_instr("%x = alloca i32, align 4"), KnowAlloca::Unknown);
    assert_eq!(Alloca::get_type_from_alloca_str("ret void"), Err(NameError::NoAllocaType));
    assert!(KnowAlloca::is_mutex_guard_type("core::result::Result<std::sync::mutex::MutexGuard<u8>"));
    assert!(KnowAlloca::is_mutex_guard(instr));
    assert_eq!(KnowAlloca::try_from_instr(instr), Ok(KnowAlloca::MutexGuard));
    assert_eq!(KnowAlloca::try_from_instr("%x = alloca i32, align 4"), Err(NameError::NoAllocaType));
    assert!(!KnowAlloca::is_mutex_guard_type("i32"));
}

#[test]
fn jump_labels_are_listed() {
    let block = "bb0:\n  br i1 %c, label %bb1, label %bb2\n";
    assert_eq!(Predecessors::get_jump_labels(block), vec!["bb1".to_string(), "bb2".to_string()]);
    assert!(Predecessors::get_jump_labels("ret void").is_empty());
    assert!(Predecessors::jumps_to("br label %bb3", "bb3"));
    assert!(!Predecessors::jumps_to("br label %bb3", "bb4"));
}

#[test]
fn trimming_removes_non_alphanumeric_ends() {
    assert_eq!(trim_non_alphanumeric("\"foo.bar\""), "foo.bar".to_string());
    assert_eq!(trim_non_alphanumeric("--"), "".to_string());
    assert_eq!(trim_non_alphanumeric("abc"), "abc".to_string());
}

#[test]
fn jump_label_must_match_whole() {
    assert!(!Predecessors::jumps_to("br label %bb10", "bb1"));
    assert!(Predecessors::jumps_to("br label %bb10", "bb10"));
    assert!(Predecessors::jumps_to("br i1 %c, label %bb1, label %bb10", "bb1"));
    assert!(!Predecessors::jumps_to("br label %bb1.x", "bb1"));
    assert!(!Predecessors::jumps_to("ret void", "bb1"));
}

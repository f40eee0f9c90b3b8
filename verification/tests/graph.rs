//! The structure of compiled commands.

use sedc::command::{Address, Command, CommandData, ProcessingContext};
use sedc::compiler::graph::{
    patch_block_endings, populate_label_map, populate_range_commands, resolve_branch_targets,
};

// Create a command with the specified code.
fn command_with_code(code: char) -> Command {
    Command {
        code,
        ..Default::default()
    }
}

// Create a command with the specified data.
fn command_with_data(data: CommandData) -> Command {
    Command {
        data,
        ..Default::default()
    }
}

fn command_with_range(code: char, start: usize, end: usize, data: CommandData) -> Command {
    Command {
        code,
        addr1: Some(Address::Line(start)),
        addr2: Some(Address::Line(end)),
        data,
        ..Default::default()
    }
}

// Link the commands at the passed positions into a list, returning head.
fn link_commands(commands: &mut [Command], ids: &[usize]) -> Option<usize> {
    for i in 0..ids.len().saturating_sub(1) {
        commands[ids[i]].next = Some(ids[i + 1]);
    }
    ids.first().copied()
}

// Return the command codes along the passed linked list.
fn collect_codes(commands: &[Command], mut head: Option<usize>) -> Vec<char> {
    let mut result = Vec::new();
    while let Some(id) = head {
        result.push(commands[id].code);
        head = commands[id].next;
    }
    result
}

// Return a context with the passed commands.
fn context_with(commands: Vec<Command>) -> ProcessingContext {
    ProcessingContext {
        commands,
        ..Default::default()
    }
}

// patch_block_endings
#[test]
fn test_flat_chain() {
    let mut commands = vec![command_with_code('a'), command_with_code('b')];
    let head = link_commands(&mut commands, &[0, 1]);

    patch_block_endings(head, &mut commands);

    assert_eq!(collect_codes(&commands, head), vec!['a', 'b']);
}

#[test]
fn test_simple_block_relinks_tail() {
    // a ; { x ; y ; } b
    let mut commands = vec![
        command_with_code('a'),
        command_with_code('{'),
        command_with_code('x'),
        command_with_code('y'),
        command_with_code('b'),
    ];
    let head = link_commands(&mut commands, &[0, 1, 4]);
    let sub_head = link_commands(&mut commands, &[2, 3]);
    commands[1].data = CommandData::BranchTarget(sub_head);

    patch_block_endings(head, &mut commands);

    // Expect x -> y -> b
    assert_eq!(collect_codes(&commands, sub_head), vec!['x', 'y', 'b']);
    // Expect a -> { -> b still valid
    assert_eq!(collect_codes(&commands, Some(0)), vec!['a', '{', 'b']);
}

#[test]
fn test_empty_block_no_panic() {
    let mut commands = vec![command_with_code('a')];
    commands[0].data = CommandData::BranchTarget(None);

    patch_block_endings(Some(0), &mut commands);

    assert_eq!(collect_codes(&commands, Some(0)), vec!['a']);
}

#[test]
fn test_nested_blocks() {
    // a
    // {
    //   m
    //   {
    //     x
    //     y
    //   }
    //   n
    // }
    // b
    let mut commands: Vec<Command> = ['a', '{', 'm', '{', 'x', 'y', 'n', 'b']
        .into_iter()
        .map(command_with_code)
        .collect();
    let head = link_commands(&mut commands, &[0, 1, 7]);
    let outer = link_commands(&mut commands, &[2, 3, 6]);
    let inner = link_commands(&mut commands, &[4, 5]);
    commands[1].data = CommandData::BranchTarget(outer);
    commands[3].data = CommandData::BranchTarget(inner);

    patch_block_endings(head, &mut commands);

    assert_eq!(collect_codes(&commands, head), vec!['a', '{', 'b']);
    assert_eq!(collect_codes(&commands, inner), vec!['x', 'y', 'n', 'b']);
    assert_eq!(collect_codes(&commands, outer), vec!['m', '{', 'n', 'b']);
}

#[test]
fn test_empty_nested_blocks() {
    // a
    // {
    //   {
    //     x
    //   }
    // }
    // b
    let mut commands: Vec<Command> = ['a', '{', '{', 'x', 'b']
        .into_iter()
        .map(command_with_code)
        .collect();
    let head = link_commands(&mut commands, &[0, 1, 4]);
    let outer = link_commands(&mut commands, &[2]);
    let inner = link_commands(&mut commands, &[3]);
    commands[1].data = CommandData::BranchTarget(outer);
    commands[2].data = CommandData::BranchTarget(inner);

    patch_block_endings(head, &mut commands);

    assert_eq!(collect_codes(&commands, head), vec!['a', '{', 'b']);
    assert_eq!(collect_codes(&commands, outer), vec!['{', 'b']);
    assert_eq!(collect_codes(&commands, inner), vec!['x', 'b']);
}

// populate_label_map
#[test]
fn test_single_label() {
    let mut cmd = command_with_data(CommandData::Label(Some("start".to_string())));
    cmd.code = ':';
    let mut context = context_with(vec![cmd]);

    populate_label_map(Some(0), &mut context).unwrap();

    assert_eq!(context.label_to_command_map.len(), 1);
    assert!(context.label_to_command_map.contains_key("start"));
    assert_eq!(context.label_to_command_map.get("start"), Some(&0));
}

#[test]
fn test_label_inside_block() {
    let mut nested = command_with_data(CommandData::Label(Some("inside".to_string())));
    nested.code = ':';
    let block = command_with_data(CommandData::BranchTarget(Some(1)));
    let mut context = context_with(vec![block, nested]);

    populate_label_map(Some(0), &mut context).unwrap();

    assert_eq!(context.label_to_command_map.len(), 1);
    assert!(context.label_to_command_map.contains_key("inside"));
    assert_eq!(context.label_to_command_map.get("inside"), Some(&1));
}

#[test]
fn test_multiple_labels() {
    let mut a = command_with_data(CommandData::Label(Some("a".to_string())));
    a.code = ':';
    let mut b = command_with_data(CommandData::Label(Some("b".to_string())));
    b.code = ':';
    let mut commands = vec![a, b];
    let head = link_commands(&mut commands, &[0, 1]);

    let mut context = context_with(commands);
    populate_label_map(head, &mut context).unwrap();

    assert_eq!(context.label_to_command_map.len(), 2);
    assert!(context.label_to_command_map.contains_key("a"));
    assert!(context.label_to_command_map.contains_key("b"));
}

#[test]
fn test_no_labels() {
    let mut commands = vec![
        command_with_data(CommandData::Empty),
        command_with_data(CommandData::Empty),
    ];
    let head = link_commands(&mut commands, &[0, 1]);

    let mut context = context_with(commands);
    populate_label_map(head, &mut context).unwrap();

    assert_eq!(context.label_to_command_map.len(), 0);
}

#[test]
fn test_label_none_is_ignored() {
    let cmd = command_with_data(CommandData::Label(None));
    let mut context = context_with(vec![cmd]);

    populate_label_map(Some(0), &mut context).unwrap();

    // The map should remain empty since the label is None
    assert_eq!(context.label_to_command_map.len(), 0);
}

#[test]
fn test_duplicate_label_gives_error() {
    let mut a1 = command_with_data(CommandData::Label(Some("dup".to_string())));
    a1.code = ':';

    let mut a2 = command_with_data(CommandData::Label(Some("dup".to_string())));
    a2.code = ':';

    let mut commands = vec![a1, a2];
    let head = link_commands(&mut commands, &[0, 1]);
    let mut context = context_with(commands);

    let result = populate_label_map(head, &mut context);

    assert!(result.is_err());
    let err = result.unwrap_err().to_string();
    assert!(err.contains("duplicate label `dup'"));
}

// populate_range_commands
#[test]
fn test_range_address() {
    let cmd = command_with_range('p', 3, 5, CommandData::Empty);
    let mut context = context_with(vec![cmd]);
    assert_eq!(context.range_commands.len(), 0);

    populate_range_commands(Some(0), &mut context);

    assert_eq!(context.range_commands.len(), 1);

    // Verify it is the same command
    let id = context.range_commands[0];
    assert_eq!(id, 0);

    // Verify addresses
    let cmd_ref = &context.commands[id];

    assert!(matches!(cmd_ref.addr1, Some(Address::Line(3))));
    assert!(matches!(cmd_ref.addr2, Some(Address::Line(5))));
}

#[test]
fn test_non_range_addresses_do_not_register() {
    // Zero-address command
    let cmd0 = Command {
        code: 'p',
        data: CommandData::Empty,
        ..Default::default()
    };
    // One-address command
    let cmd1 = Command {
        code: 'p',
        addr1: Some(Address::Line(3)),
        data: CommandData::Empty,
        ..Default::default()
    };
    let mut context = context_with(vec![cmd0, cmd1]);

    populate_range_commands(Some(0), &mut context);
    assert!(context.range_commands.is_empty());

    populate_range_commands(Some(1), &mut context);
    assert!(context.range_commands.is_empty());
}

#[test]
fn test_range_address_outside_and_inside_block() {
    // Top-level range command: 1,2p
    let mut outer = command_with_range('p', 1, 2, CommandData::Empty);

    // Nested range command: 3,5p
    let nested = command_with_range('p', 3, 5, CommandData::Empty);

    // Block containing the nested range command
    let block = command_with_data(CommandData::BranchTarget(Some(2)));

    // Link outer -> block
    outer.next = Some(1);

    let mut context = context_with(vec![outer, block, nested]);
    assert_eq!(context.range_commands.len(), 0);

    populate_range_commands(Some(0), &mut context);

    // Two range commands must be found.
    assert_eq!(context.range_commands.len(), 2);

    // Verify both commands are present (order-independent).
    assert!(context.range_commands.iter().any(|id| *id == 0));
    assert!(context.range_commands.iter().any(|id| *id == 2));

    let nested_ref = &context.commands[2];

    let addr1 = nested_ref.addr1.as_ref().expect("nested addr1 missing");
    assert!(matches!(addr1, Address::Line(3)));

    let addr2 = nested_ref.addr2.as_ref().expect("nested addr2 missing");
    assert!(matches!(addr2, Address::Line(5)));
}

// resolve_branch_targets
#[test]
fn test_branch_target_resolved() {
    let mut branch = command_with_data(CommandData::Label(Some("end".to_string())));
    branch.code = 'b';

    let mut target = command_with_data(CommandData::Label(Some("end".to_string())));
    target.code = ':';

    let mut commands = vec![branch, target];
    let head = link_commands(&mut commands, &[0, 1]);
    let mut context = context_with(commands);

    populate_label_map(head, &mut context).unwrap();
    let result = resolve_branch_targets(head, &mut context);
    assert!(result.is_ok());

    match &context.commands[0].data {
        CommandData::BranchTarget(Some(id)) => {
            assert_eq!(*id, 1);
        }
        _ => panic!("Expected BranchTarget(Some(...))"),
    }
}

#[test]
fn test_branch_target_missing_label_gives_error() {
    let mut branch = command_with_data(CommandData::Label(Some("nope".to_string())));
    branch.code = 't';

    let mut context = context_with(vec![branch]);
    let result = resolve_branch_targets(Some(0), &mut context);

    assert!(result.is_err());
    let err = result.unwrap_err().to_string();
    assert!(err.contains("undefined label `nope'"));
}

#[test]
fn test_branch_with_no_label_resolves_to_none() {
    let mut branch = command_with_data(CommandData::Label(None));
    branch.code = 'b';

    let mut context = context_with(vec![branch]);
    let result = resolve_branch_targets(Some(0), &mut context);

    assert!(result.is_ok());
    match &context.commands[0].data {
        CommandData::BranchTarget(None) => {} // ok
        _ => panic!("Expected BranchTarget(None)"),
    }
}

#[test]
fn test_non_branch_label_is_unchanged() {
    let mut cmd = command_with_data(CommandData::Label(Some("unchanged".to_string())));
    cmd.code = 'q'; // not a branch command

    let mut context = context_with(vec![cmd]);
    let result = resolve_branch_targets(Some(0), &mut context);
    assert!(result.is_ok());

    match &context.commands[0].data {
        CommandData::Label(Some(label)) => assert_eq!(label, "unchanged"),
        _ => panic!("Expected Label(Some(...)) to remain unchanged"),
    }
}

#[test]
fn test_branch_in_nested_block() {
    let mut branch = command_with_data(CommandData::Label(Some("inner".to_string())));
    branch.code = 't';

    let block = command_with_data(CommandData::BranchTarget(Some(2)));

    let mut label = command_with_data(CommandData::Label(Some("inner".to_string())));
    label.code = ':';

    let mut commands = vec![branch, block, label];
    let head = link_commands(&mut commands, &[0, 1]);

    let mut context = context_with(commands);
    populate_label_map(Some(2), &mut context).unwrap();
    let result = resolve_branch_targets(head, &mut context);

    assert!(result.is_ok());
    match &context.commands[0].data {
        CommandData::BranchTarget(Some(id)) => assert_eq!(*id, 2),
        _ => panic!("Expected BranchTarget(Some(...))"),
    }
}

use qdb::statement::{
    classify_statement, execute_statement, meta_command_of, perform_meta_command,
    prepare_statement, try_prepare_statement, unrecognized_text, MetaCommand, PreparedStatement,
};

fn name_of(r: Result<PreparedStatement, String>) -> String {
    match r {
        Ok(PreparedStatement::Select) => "select".to_string(),
        Ok(PreparedStatement::Insert) => "insert".to_string(),
        Ok(PreparedStatement::Update) => "update".to_string(),
        Ok(PreparedStatement::Delete) => "delete".to_string(),
        Ok(PreparedStatement::CreateTable(t)) => format!("create:{}", t),
        Ok(PreparedStatement::DropTable(t)) => format!("drop:{}", t),
        Err(e) => format!("error:{}", e),
    }
}

#[test]
fn statements_are_told_apart_by_their_first_word() {
    assert_eq!(name_of(prepare_statement("select * from t")), "select");
    assert_eq!(name_of(prepare_statement("insert into t values (1)")), "insert");
    assert_eq!(name_of(prepare_statement("update t set a = 1")), "update");
    assert_eq!(name_of(prepare_statement("delete from t")), "delete");
    assert_eq!(name_of(prepare_statement("create table movies")), "create:movies");
    assert_eq!(name_of(prepare_statement("drop table movies")), "drop:movies");
}

#[test]
fn commands_are_read_in_any_case() {
    assert_eq!(name_of(prepare_statement("SELECT * FROM t")), "select");
    assert_eq!(name_of(prepare_statement("Insert INTO t")), "insert");
    assert_eq!(name_of(prepare_statement("DROP TABLE Movies")), "drop:Movies");
}

#[test]
fn lower_case_goes_by_unicode() {
    assert_eq!(name_of(prepare_statement("ÉCLAIR x")), "error:Unknown SQL command: éclair");
    assert_eq!(name_of(prepare_statement("insert İNTO t")), "error:Syntax Error: 'insert' keyword needs to be followed by 'into'");
}

#[test]
fn insert_needs_into() {
    assert_eq!(
        name_of(prepare_statement("insert t values (1)")),
        "error:Syntax Error: 'insert' keyword needs to be followed by 'into'"
    );
    assert_eq!(
        name_of(prepare_statement("insert  into t")),
        "error:Syntax Error: 'insert' keyword needs to be followed by 'into'"
    );
}

#[test]
fn unknown_commands_are_refused_by_name() {
    assert_eq!(name_of(prepare_statement("Explain select")), "error:Unknown SQL command: explain");
    assert_eq!(name_of(prepare_statement(" select")), "error:Unknown SQL command: ");
}

#[test]
fn table_names_start_behind_a_fixed_number_of_bytes() {
    assert_eq!(name_of(prepare_statement("create table a b")), "create:a b");
    assert_eq!(name_of(prepare_statement("create table ")), "create:");
    assert_eq!(name_of(prepare_statement("create index  x")), "create: x");
    assert_eq!(name_of(prepare_statement("drop table ")), "drop:");
    assert_eq!(name_of(prepare_statement("drop tablé x")), "drop: x");
}

#[test]
fn what_cannot_be_prepared_is_told_so() {
    // no second word
    assert!(try_prepare_statement("select").is_none());
    assert!(try_prepare_statement("").is_none());
    // too short to name a table
    assert!(try_prepare_statement("create x").is_none());
    assert!(try_prepare_statement("drop x").is_none());
    // the name would start inside a character
    assert!(try_prepare_statement("create tableé x").is_none());
    // everything else is prepared
    assert_eq!(name_of(try_prepare_statement("CREATE TABLE t").unwrap()), "create:t");
    assert_eq!(name_of(try_prepare_statement("select ").unwrap()), "select");
    assert_eq!(name_of(try_prepare_statement("x ").unwrap()), "error:Unknown SQL command: x");
}

#[test]
fn classification_goes_by_the_words_it_is_given() {
    assert_eq!(name_of(classify_statement("select", "", "whatever")), "select");
    assert_eq!(name_of(classify_statement("SELECT", "", "whatever")), "error:Unknown SQL command: SELECT");
    assert_eq!(name_of(classify_statement("insert", "into", "")), "insert");
    assert_eq!(
        name_of(classify_statement("insert", "INTO", "")),
        "error:Syntax Error: 'insert' keyword needs to be followed by 'into'"
    );
    assert_eq!(name_of(classify_statement("create", "", "0123456789abcdef")), "create:def");
    assert_eq!(name_of(classify_statement("drop", "", "0123456789abcdef")), "drop:bcdef");
}

#[test]
fn statements_say_what_they_would_do() {
    assert_eq!(execute_statement(PreparedStatement::Select), "This is where we would do a select.");
    assert_eq!(execute_statement(PreparedStatement::Insert), "This is where we would do an insert.");
    assert_eq!(execute_statement(PreparedStatement::Update), "This is where we would do an update.");
    assert_eq!(execute_statement(PreparedStatement::Delete), "This is where we would do a delete.");
    assert_eq!(
        execute_statement(PreparedStatement::CreateTable("movies".to_string())),
        "This is where we would create table movies"
    );
    assert_eq!(
        execute_statement(PreparedStatement::DropTable("movies".to_string())),
        "This is where we would drop table movies"
    );
}

#[test]
fn meta_commands() {
    assert_eq!(perform_meta_command("?"), MetaCommand::Help);
    assert_eq!(perform_meta_command("help"), MetaCommand::Help);
    assert_eq!(perform_meta_command("q"), MetaCommand::Quit);
    assert_eq!(perform_meta_command("quit"), MetaCommand::Quit);
    assert_eq!(perform_meta_command("Quit"), MetaCommand::Unrecognized);
    assert_eq!(perform_meta_command(""), MetaCommand::Unrecognized);
    assert_eq!(unrecognized_text("x y"), "Unrecognized command 'x y'.");
}

#[test]
fn meta_commands_start_with_a_backslash() {
    assert_eq!(meta_command_of("\\q"), Some("q"));
    assert_eq!(meta_command_of("\\"), Some(""));
    assert_eq!(meta_command_of("\\héllo"), Some("héllo"));
    assert_eq!(meta_command_of("q"), None);
    assert_eq!(meta_command_of(""), None);
    assert_eq!(meta_command_of(" \\q"), None);
}

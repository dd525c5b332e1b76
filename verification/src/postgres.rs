//! Configuration for the auxiliary database of a local development network:
//! which port to reach it on, the exact connection string, and the validation
//! performed before a manager for it is created. Starting and stopping the
//! service itself is I/O and lives with the embedding program.

use vstd::prelude::*;
use vstd::string::StringExecFns;

verus! {

/// The decimal digit `d` as a character.
pub open spec fn digit_char(d: u64) -> char {
    if d == 0 {
        '0'
    } else if d == 1 {
        '1'
    } else if d == 2 {
        '2'
    } else if d == 3 {
        '3'
    } else if d == 4 {
        '4'
    } else if d == 5 {
        '5'
    } else if d == 6 {
        '6'
    } else if d == 7 {
        '7'
    } else if d == 8 {
        '8'
    } else {
        '9'
    }
}

/// The decimal rendering of `n`, most significant digit first.
pub open spec fn spec_decimal(n: u64) -> Seq<char>
    decreases n,
{
    if n < 10 {
        seq![digit_char(n as u64)]
    } else {
        spec_decimal(n / 10) + seq![digit_char(n % 10)]
    }
}

/// The decimal digit `d` as a one-character string.
fn digit_str(d: u64) -> (r: &'static str)
    requires
        d < 10,
    ensures
        r@ == seq![digit_char(d)],
{
    proof {
        reveal_strlit("0");
        reveal_strlit("1");
        reveal_strlit("2");
        reveal_strlit("3");
        reveal_strlit("4");
        reveal_strlit("5");
        reveal_strlit("6");
        reveal_strlit("7");
        reveal_strlit("8");
        reveal_strlit("9");
    }
    let r: &'static str = if d == 0 {
        "0"
    } else if d == 1 {
        "1"
    } else if d == 2 {
        "2"
    } else if d == 3 {
        "3"
    } else if d == 4 {
        "4"
    } else if d == 5 {
        "5"
    } else if d == 6 {
        "6"
    } else if d == 7 {
        "7"
    } else if d == 8 {
        "8"
    } else {
        "9"
    };
    proof {
        assert(r@ =~= seq![digit_char(d)]);
    }
    r
}

/// Renders `n` in decimal.
fn decimal_string(n: u64) -> (s: String)
    ensures
        s@ == spec_decimal(n),
    decreases n,
{
    if n < 10 {
        digit_str(n).to_owned()
    } else {
        let mut s = decimal_string(n / 10);
        s.append(digit_str(n % 10));
        s
    }
}

/// Arguments describing how to reach (or run) the local network's database.
pub struct PostgresArgs {
    /// The database to connect to.
    pub postgres_database: String,
    /// The user to connect as.
    pub postgres_user: String,
    /// Port of the managed instance, used when no host instance is wanted.
    pub postgres_port: u16,
    /// Connect to an existing instance on the host rather than managing one.
    pub use_host_postgres: bool,
    /// Port of the host instance, used with `use_host_postgres`.
    pub host_postgres_port: u16,
    /// Password for the host instance, if it needs one.
    pub host_postgres_password: Option<String>,
}

impl Clone for PostgresArgs {
    fn clone(&self) -> (res: Self)
        ensures
            res == self,
    {
        PostgresArgs {
            postgres_database: self.postgres_database.clone(),
            postgres_user: self.postgres_user.clone(),
            postgres_port: self.postgres_port,
            use_host_postgres: self.use_host_postgres,
            host_postgres_port: self.host_postgres_port,
            host_postgres_password: match &self.host_postgres_password {
                Some(p) => Some(p.clone()),
                None => None,
            },
        }
    }
}

/// The port the configuration selects: the host instance's port when one is
/// used, the managed instance's port otherwise.
pub open spec fn spec_postgres_port(args: PostgresArgs) -> u16 {
    if args.use_host_postgres {
        args.host_postgres_port
    } else {
        args.postgres_port
    }
}

/// The password part of the connection string: `:password` when connecting to
/// a host instance with a password, empty otherwise.
pub open spec fn spec_password_part(args: PostgresArgs) -> Seq<char> {
    if args.use_host_postgres && args.host_postgres_password is Some {
        ":"@ + args.host_postgres_password->Some_0@
    } else {
        Seq::<char>::empty()
    }
}

/// The full connection string for `database` (or the configured database).
pub open spec fn spec_connection_string(args: PostgresArgs, database: Option<Seq<char>>) -> Seq<
    char,
> {
    "postgres://"@ + args.postgres_user@ + spec_password_part(args) + "@127.0.0.1:"@
        + spec_decimal(spec_postgres_port(args) as u64) + "/"@ + (match database {
        Some(d) => d,
        None => args.postgres_database@,
    })
}

impl PostgresArgs {
    /// The port to connect to.
    pub fn get_postgres_port(&self) -> (r: u16)
        ensures
            r == spec_postgres_port(*self),
    {
        if self.use_host_postgres {
            self.host_postgres_port
        } else {
            self.postgres_port
        }
    }

    /// The connection string for the database: `database` overrides the
    /// configured database name when given.
    pub fn get_connection_string(&self, database: Option<&str>) -> (r: String)
        ensures
            r@ == spec_connection_string(
                *self,
                match database {
                    Some(d) => Some(d@),
                    None => None::<Seq<char>>,
                },
            ),
    {
        let mut s = "postgres://".to_owned();
        s.append(self.postgres_user.as_str());
        if self.use_host_postgres {
            match &self.host_postgres_password {
                Some(password) => {
                    s.append(":");
                    s.append(password.as_str());
                },
                None => {},
            }
        }
        s.append("@127.0.0.1:");
        let port = self.get_postgres_port();
        let port_str = decimal_string(port as u64);
        s.append(port_str.as_str());
        s.append("/");
        match database {
            Some(db) => s.append(db),
            None => s.append(self.postgres_database.as_str()),
        }
        s
    }
}

/// The subset of the development-network launch arguments this component
/// reads.
pub struct RunLocalTestnet {
    pub postgres_args: PostgresArgs,
    pub force_restart: bool,
}

/// Why a manager cannot be created from the given arguments.
#[derive(Clone, Copy, PartialEq, Eq, Structural, Debug)]
pub enum PostgresConfigError {
    /// With a host instance, the working database may not be the maintenance
    /// database itself: it gets dropped and recreated on a forced restart.
    ReservedDatabaseName,
}

/// Manager of the local network's database service: the validated arguments,
/// the directory its logs go to, and whether a restart wipes state.
pub struct PostgresManager {
    pub args: PostgresArgs,
    pub test_dir: String,
    pub force_restart: bool,
}

impl PostgresManager {
    /// Validates the launch arguments and builds the manager. Connecting to a
    /// host instance whose working database is named `postgres` is rejected:
    /// that database is the one used to drop and recreate the working one.
    pub fn new(args: &RunLocalTestnet, test_dir: String) -> (r: Result<
        PostgresManager,
        PostgresConfigError,
    >)
        ensures
            ({
                let reserved = args.postgres_args.use_host_postgres
                    && args.postgres_args.postgres_database@ == "postgres"@;
                if reserved {
                    r == Result::<PostgresManager, PostgresConfigError>::Err(
                        PostgresConfigError::ReservedDatabaseName,
                    )
                } else {
                    r matches Ok(m) && m.args == args.postgres_args && m.test_dir@ == test_dir@
                        && m.force_restart == args.force_restart
                }
            }),
    {
        if args.postgres_args.use_host_postgres && args.postgres_args.postgres_database
            == "postgres".to_owned() {
            return Err(PostgresConfigError::ReservedDatabaseName);
        }
        Ok(
            PostgresManager {
                args: args.postgres_args.clone(),
                test_dir,
                force_restart: args.force_restart,
            },
        )
    }

    /// The display name of the managed service.
    pub fn get_name(&self) -> (r: String)
        ensures
            r@ == "Postgres"@,
    {
        "Postgres".to_owned()
    }
}

} // verus!

use vstd::prelude::*;

verus! {

/// The login page.
pub const LOGIN_PAGE: &'static str = "\n    <!DOCTYPE html>\n<html lang=\"en\">\n<head>\n    <meta charset=\"UTF-8\">\n    <meta name=\"viewport\" content=\"width=device-width, initial-scale=1.0\">\n    <title>Ankit Server Login</title>\n    <link rel=\"icon\" type=\"image/png\" href=\"https://www.pngplay.com/wp-content/uploads/7/Cloud-Server-Icon-Transparent-Images.png\">\n    <script src=\"https://cdn.tailwindcss.com\"></script>\n    <link rel=\"stylesheet\" href=\"https://cdnjs.cloudflare.com/ajax/libs/font-awesome/6.4.0/css/all.min.css\">\n</head>\n<body class=\"flex items-center justify-center min-h-screen bg-gray-100\">\n    <div class=\"w-full max-w-md bg-white rounded-lg shadow-lg p-6\">\n        <div class=\"text-center mb-6\">\n            <h2 class=\"text-2xl font-bold text-gray-700\"><i class=\"fas fa-cloud\"></i> Ankit Server Login</h2>\n            <p class=\"text-gray-500 text-sm\">Restricted Access - Authorized Personnel Only</p>\n        </div>\n        \n        <form class=\"space-y-4\" method=\"post\" action=\"/login\">\n            <div>\n                <label class=\"block text-gray-600 mb-1\"><i class=\"fas fa-user-cog\"></i> Admin ID</label>\n                <input type=\"text\" name=\"username\" class=\"w-full border rounded px-3 py-2\" placeholder=\"Enter admin username\" required>\n            </div>\n            <div>\n                <label class=\"block text-gray-600 mb-1\"><i class=\"fas fa-key\"></i> Security Key</label>\n                <input type=\"password\" name=\"password\" class=\"w-full border rounded px-3 py-2\" placeholder=\"Enter password\" required>\n            </div>\n            <div class=\"text-yellow-600 text-sm\"><i class=\"fas fa-exclamation-circle\"></i> Ensure you're on a secure network before logging in</div>\n            <button type=\"submit\" class=\"w-full bg-blue-600 hover:bg-blue-700 text-white py-2 rounded\"><i class=\"fas fa-sign-in-alt\"></i> Login</button>\n        </form>\n    </div>\n</body>\n</html>\n    ";

/// The listing page up to the directory it shows.
pub const PAGE_TOP: &'static str = "<!DOCTYPE html>\n<html lang=\"en\">\n<head>\n    <meta charset=\"UTF-8\">\n    <meta name=\"viewport\" content=\"width=device-width, initial-scale=1.0\">\n    <title>Ankit Server File Manager</title>\n    <link rel=\"icon\" type=\"image/png\" href=\"https://www.pngplay.com/wp-content/uploads/7/Cloud-Server-Icon-Transparent-Images.png\">\n    <script src=\"https://cdn.tailwindcss.com\"></script>\n    <link rel=\"stylesheet\" href=\"https://cdnjs.cloudflare.com/ajax/libs/font-awesome/6.4.0/css/all.min.css\">\n</head>\n<body class=\"bg-gray-100 min-h-screen\">\n    <div class=\"container mx-auto p-6\">\n        <header class=\"flex justify-between items-center mb-6\">\n            <h3 class=\"text-xl font-bold\"><i class=\"fas fa-folder\"></i>~$ ";

/// The listing page from the directory it shows to the back link.
pub const PAGE_AFTER_PATH: &'static str = "</h3><br/>\n            <div class=\"space-x-2\">\n                ";

/// The listing page from the back link to the directory that the upload form posts to.
pub const PAGE_AFTER_BACK: &'static str = "\n                <a href=\"/logout\" class=\"bg-red-500 text-white px-3 py-1 rounded hover:bg-red-600\"><i class=\"fas fa-sign-out-alt\"></i> Logout</a>\n            </div>\n        </header>\n\n        <section class=\"mb-6\">\n            <form class=\"flex space-x-2\" action=\"/upload?path=";

/// The listing page from the upload form to the entries.
pub const PAGE_AFTER_FORM: &'static str = "\" method=\"post\" enctype=\"multipart/form-data\">\n                <input type=\"file\" name=\"file\" class=\"flex-1 border rounded px-3 py-2\" required>\n                <button type=\"submit\" class=\"bg-blue-600 text-white px-4 py-2 rounded hover:bg-blue-700\"><i class=\"fas fa-cloud-upload-alt\"></i> Upload</button>\n            </form>\n        </section>\n\n        <div class=\"grid grid-cols-1 md:grid-cols-2 lg:grid-cols-3 gap-4\">\n            ";

/// The listing page after the entries.
pub const PAGE_BOTTOM: &'static str = "\n        </div>\n\n        <footer class=\"mt-10 text-center text-gray-500 text-sm\">\n            © 2025-30 File Manager | Built with <i class=\"fas fa-heart text-red-500\"></i>\n        </footer>\n    </div>\n</body>\n</html>";

/// An entry of the listing up to its name.
pub const ROW_TOP: &'static str = "<div class=\"border rounded-lg p-4 bg-white shadow\">\n                <div class=\"flex justify-between items-center\">\n                    <span class=\"font-semibold\">";

/// An entry of the listing from its name to its size.
pub const ROW_AFTER_NAME: &'static str = "</span>\n                    <span class=\"text-gray-500 text-sm\">";

/// An entry of the listing from its size to its kind.
pub const ROW_AFTER_SIZE: &'static str = "</span>\n                </div>\n                <div class=\"text-sm text-gray-600\">";

/// An entry of the listing from its kind to its actions.
pub const ROW_AFTER_KIND: &'static str = "</div>\n                <div class=\"mt-2 space-x-2\">";

/// An entry of the listing after its actions.
pub const ROW_BOTTOM: &'static str = "</div>\n            </div>";

/// The start of a link to the preview of a file.
pub const PREVIEW_HREF: &'static str = "<a href=\"/preview/";

/// The query that names the directory of a file or of an action.
pub const PATH_QUERY: &'static str = "?path=";

/// The rest of a link to the preview of a file.
pub const PREVIEW_REST: &'static str = "\" target=\"_blank\" class=\"text-green-600 hover:underline\"><i class=\"fas fa-eye\"></i> Preview</a>";

/// The start of a link to a directory listing.
pub const LISTING_HREF: &'static str = "<a href=\"/?path=";

/// The separator between a directory and a name in a listing link.
pub const PATH_SEPARATOR: &'static str = "/";

/// The rest of the link that opens a directory, and the separator after it.
pub const OPEN_REST: &'static str = "\" class=\"text-blue-600 hover:underline\">📂 Open</a> | ";

/// The start of a link that deletes a file or a directory.
pub const DELETE_HREF: &'static str = "<a href=\"/delete/";

/// The rest of a link that deletes a file or a directory.
pub const DELETE_REST: &'static str = "\" class=\"text-red-600 hover:underline\"><i class=\"fas fa-trash\"></i> Delete</a>";

/// The start of a link that downloads a file.
pub const DOWNLOAD_HREF: &'static str = "<a href=\"/download/";

/// The rest of a link that downloads a file, and the separator after it.
pub const DOWNLOAD_REST: &'static str = "\" class=\"text-blue-600 hover:underline\"><i class=\"fas fa-download\"></i> Download</a> | ";

/// The separator between the actions of a file.
pub const ACTION_SEPARATOR: &'static str = " | ";

/// The rest of the link back to the parent directory.
pub const BACK_REST: &'static str = "\" class=\"bg-gray-200 px-3 py-1 rounded hover:bg-gray-300\"><i class=\"fas fa-arrow-left\"></i> Back</a>";

/// What a directory shows in place of a size.
pub const DIR_SIZE: &'static str = "—";

/// The unit after a file's size.
pub const SIZE_UNIT: &'static str = " B";

/// The kind shown for a directory.
pub const KIND_DIR: &'static str = "Dir";

/// The kind shown for a file.
pub const KIND_FILE: &'static str = "File";

}
